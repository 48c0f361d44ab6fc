//! Writing table constructors out without the help of set-lists.

use vstd::prelude::*;

use crate::ast::literal::{Literal, LiteralView, Number, NumberView};
use crate::ast::local::RcLocal;
use crate::ast::nodes;
use crate::ast::nodes::{
    Assign, AssignView, Block, Index, IndexView, LValue, LValueView, RValue, RValueView, SetList,
    Statement, StatementView, Table,
};
use crate::ast::tally;
use crate::ast::tally::bump;
use crate::ast::walk::{walk_block, BlockPass};

verus! {

broadcast use nodes::group_views;

/// Whether a field is a slot that nothing filled: it has a key and its value is
/// nil.
pub open spec fn is_unfilled(field: (Option<RValueView>, RValueView)) -> bool {
    field.0 is Some && field.1 == RValueView::Literal(LiteralView::Nil)
}

/// The fields from position `from` on that are filled.
pub open spec fn filled_from(fields: Seq<(Option<RValueView>, RValueView)>, from: int) -> Seq<
    (Option<RValueView>, RValueView),
>
    decreases fields.len() - from,
{
    if 0 <= from < fields.len() {
        if is_unfilled(fields[from]) {
            filled_from(fields, from + 1)
        } else {
            seq![fields[from]] + filled_from(fields, from + 1)
        }
    } else {
        Seq::empty()
    }
}

fn drop_unfilled(fields: Vec<(Option<RValue>, RValue)>) -> (kept: Vec<(Option<RValue>, RValue)>)
    ensures
        RValue::field_views(kept@) == filled_from(RValue::field_views(fields@), 0),
{
    let ghost views = RValue::field_views(fields@);
    let count: usize = fields.len();
    let mut rest = fields;
    let mut kept: Vec<(Option<RValue>, RValue)> = Vec::new();
    let mut index: usize = 0;
    proof {
        assert(RValue::field_views(kept@) + filled_from(views, 0) =~= filled_from(views, 0));
    }
    while index < count
        invariant
            index <= count == views.len(),
            rest@.len() == count - index,
            RValue::field_views(rest@) =~= views.skip(index as int),
            RValue::field_views(kept@) + filled_from(views, index as int) == filled_from(views, 0),
        decreases count - index,
    {
        let ghost before = RValue::field_views(rest@);
        let ghost held = RValue::field_views(kept@);
        let field = rest.remove(0);
        proof {
            assert(before[0] == views[index as int]);
            assert(RValue::field_views(rest@) =~= before.skip(1));
            nodes::rvalue_node(field.1);
        }
        let nil = matches!(field.1, RValue::Literal(Literal::Nil));
        let unfilled = field.0.is_some() && nil;
        if !unfilled {
            kept.push(field);
            proof {
                assert(RValue::field_views(kept@) =~= held.push(views[index as int]));
            }
        }
        proof {
            assert(RValue::field_views(kept@) + filled_from(views, index + 1) =~= held
                + filled_from(views, index as int));
        }
        index += 1;
    }
    proof {
        assert(RValue::field_views(kept@) + filled_from(views, count as int)
            =~= RValue::field_views(kept@));
    }
    kept
}

/// Drops the slots of table constructors that nothing filled.
pub struct SlotDropping {}

impl BlockPass for SlotDropping {
    type Notes = ();

    open spec fn notes(&self) -> () {
        ()
    }

    open spec fn enters_closures() -> bool {
        true
    }

    open spec fn enters_scopes() -> bool {
        false
    }

    open spec fn settled(value: RValueView) -> RValueView {
        match value {
            RValueView::Table(fields) => RValueView::Table(filled_from(fields, 0)),
            _ => value,
        }
    }

    open spec fn finished(notes: (), block: Seq<StatementView>, looped: bool) -> (
        (),
        Seq<StatementView>,
    ) {
        (notes, block)
    }

    fn closures_entered() -> (result: bool) {
        true
    }

    fn scopes_entered() -> (result: bool) {
        false
    }

    fn settle(value: RValue) -> (settled: RValue) {
        proof {
            nodes::rvalue_node(value);
        }
        match value {
            RValue::Table(table) => {
                let settled = RValue::Table(Table(drop_unfilled(table.0)));
                proof {
                    nodes::rvalue_node(settled);
                }
                settled
            },
            other => other,
        }
    }

    fn finish(&mut self, block: Block, looped: bool) -> (done: Block) {
        block
    }
}

/// Drops constructor slots that no later store filled.
///
/// Lifting keeps a slot for every key in a `DUPTABLE` template so a computed
/// value can be written back into the position the author gave it. A slot left
/// holding nil was never assigned, and a field set to nil is indistinguishable
/// from an absent one, so removing it restores the source table exactly.
pub fn drop_unfilled_table_slots(block: Block) -> (dropped: Block)
    ensures
        dropped@ == StatementView::walked_block::<SlotDropping>(block@, (), false).1,
{
    let mut pass = SlotDropping {  };
    walk_block(block, &mut pass, false)
}

/// The store of a value at an index of a table.
pub open spec fn indexed_store(object: RcLocal, index: nat, value: RValueView) -> StatementView {
    StatementView::Assign(
        AssignView {
            left: seq![
                LValueView::Index(
                    IndexView {
                        left: Box::new(RValueView::Local(object)),
                        right: Box::new(
                            RValueView::Literal(
                                LiteralView::Number(NumberView::Integer(index as int)),
                            ),
                        ),
                    },
                ),
            ],
            right: seq![value],
            prefix: false,
            parallel: false,
        },
    )
}

/// What a statement is lowered to: a set-list without a tail to one store for
/// each of its values, at consecutive indices.
pub open spec fn stores_of(statement: StatementView) -> Seq<StatementView> {
    match statement {
        StatementView::SetList { object_local, index, values, tail: None } => Seq::new(
            values.len(),
            |i: int| indexed_store(object_local, (index + i) as nat, values[i]),
        ),
        _ => seq![statement],
    }
}

/// Whether a statement is a set-list without a tail.
pub open spec fn is_residual(statement: StatementView) -> bool {
    statement matches StatementView::SetList { tail: None, .. }
}

/// The statements from position `from` on lowered, and a count with one more
/// for each that was.
pub open spec fn lowered_from(block: Seq<StatementView>, from: int, count: usize) -> (
    usize,
    Seq<StatementView>,
)
    decreases block.len() - from,
{
    if 0 <= from < block.len() {
        let next = if is_residual(block[from]) {
            tally::bumped(count)
        } else {
            count
        };
        let (last, rest) = lowered_from(block, from + 1, next);
        (last, stores_of(block[from]) + rest)
    } else {
        (count, Seq::empty())
    }
}

/// The stores that a set-list without a tail stands for.
fn list_stores(object: RcLocal, first: usize, values: Vec<RValue>) -> (stores: Vec<Statement>)
    ensures
        Statement::views(stores@) == Seq::new(
            values@.len(),
            |i: int| indexed_store(object, (first + i) as nat, RValue::views(values@)[i]),
        ),
{
    let ghost views = RValue::views(values@);
    let count: usize = values.len();
    let mut rest = values;
    let mut stores: Vec<Statement> = Vec::new();
    let mut offset: usize = 0;
    while offset < count
        invariant
            offset <= count == views.len(),
            rest@.len() == count - offset,
            RValue::views(rest@) =~= views.skip(offset as int),
            stores@.len() == offset,
            forall|i: int|
                0 <= i < offset ==> (#[trigger] Statement::views(stores@)[i]) == indexed_store(
                    object,
                    (first + i) as nat,
                    views[i],
                ),
        decreases count - offset,
    {
        let ghost before = RValue::views(rest@);
        let ghost held = Statement::views(stores@);
        let value = rest.remove(0);
        proof {
            assert(before[0] == views[offset as int]);
            assert(RValue::views(rest@) =~= before.skip(1));
        }
        let key = Number::Integer(first as i128 + offset as i128);
        let target = Index::new(RValue::local(object), RValue::literal(Literal::Number(key)));
        let target = LValue::Index(target);
        let mut left: Vec<LValue> = Vec::new();
        let mut right: Vec<RValue> = Vec::new();
        let ghost stored = value@;
        proof {
            nodes::lvalue_node(target);
        }
        left.push(target);
        right.push(value);
        let store = Statement::Assign(Assign::new(left, right));
        proof {
            nodes::statement_node(store);
            assert(LValue::views(left@) =~= seq![target@]);
            assert(RValue::views(right@) =~= seq![stored]);
            assert(store@ == indexed_store(object, (first + offset) as nat, stored));
        }
        stores.push(store);
        proof {
            assert(Statement::views(stores@) =~= held.push(store@));
        }
        offset += 1;
    }
    proof {
        assert(Statement::views(stores@) =~= Seq::new(
            count as nat,
            |i: int| indexed_store(object, (first + i) as nat, views[i]),
        ));
    }
    stores
}

/// Lowers set-lists, and counts them.
pub struct SetListLowering {
    pub lowered: usize,
}

impl BlockPass for SetListLowering {
    type Notes = usize;

    open spec fn notes(&self) -> usize {
        self.lowered
    }

    open spec fn enters_closures() -> bool {
        true
    }

    open spec fn enters_scopes() -> bool {
        false
    }

    open spec fn settled(value: RValueView) -> RValueView {
        value
    }

    open spec fn finished(notes: usize, block: Seq<StatementView>, looped: bool) -> (
        usize,
        Seq<StatementView>,
    ) {
        lowered_from(block, 0, notes)
    }

    fn closures_entered() -> (result: bool) {
        true
    }

    fn scopes_entered() -> (result: bool) {
        false
    }

    fn settle(value: RValue) -> (settled: RValue) {
        value
    }

    fn finish(&mut self, block: Block, looped: bool) -> (done: Block) {
        let ghost views = block@;
        let ghost whole = lowered_from(views, 0, self.lowered);
        let mut rest = block.0;
        let count: usize = rest.len();
        let mut done: Vec<Statement> = Vec::new();
        let mut index: usize = 0;
        proof {
            assert(Statement::views(done@) + whole.1 =~= whole.1);
        }
        while index < count
            invariant
                index <= count == views.len(),
                rest@.len() == count - index,
                Statement::views(rest@) =~= views.skip(index as int),
                ({
                    let (last, remaining) = lowered_from(views, index as int, self.lowered);
                    whole == (last, Statement::views(done@) + remaining)
                }),
            decreases count - index,
        {
            let ghost before = Statement::views(rest@);
            let ghost held = Statement::views(done@);
            let ghost noted = self.lowered;
            let statement = rest.remove(0);
            proof {
                assert(before[0] == views[index as int]);
                assert(Statement::views(rest@) =~= before.skip(1));
                nodes::statement_node(statement);
            }
            match statement {
                Statement::SetList(SetList { object_local, index: first, values, tail: None }) => {
                    let mut stores = list_stores(object_local, first, values);
                    let ghost added = Statement::views(stores@);
                    done.append(&mut stores);
                    self.lowered = bump(self.lowered);
                    proof {
                        assert(added =~= stores_of(views[index as int]));
                        assert(Statement::views(done@) =~= held + added);
                    }
                },
                other => {
                    done.push(other);
                    proof {
                        assert(Statement::views(done@) =~= held + stores_of(views[index as int]));
                    }
                },
            }
            proof {
                let (last, remaining) = lowered_from(views, index as int, noted);
                let (_, fewer) = lowered_from(views, index + 1, self.lowered);
                assert(Statement::views(done@) + fewer =~= held + remaining);
            }
            index += 1;
        }
        let done = Block(done);
        proof {
            assert(done@ + Seq::<StatementView>::empty() =~= done@);
        }
        done
    }
}

/// Rewrites a `SetList` that table-constructor folding could not absorb into
/// the indexed assignments it stands for, and gives how many there were.
///
/// Folding needs the constructor and its batch to be close enough that neither
/// has to cross the other; register pressure separates them once a constructor
/// grows past a couple of batches. A `SetList` that survives has no Luau
/// spelling, so leaving it in place fails the whole file. Writing the elements
/// out one index at a time says the same thing in valid source, costing one
/// table its shape instead of everything around it.
///
/// A batch with an open tail is left alone: its element count is only known at
/// run time, so no fixed sequence of assignments reproduces it.
pub fn lower_residual_set_lists(block: Block) -> (result: (Block, usize))
    ensures
        (result.1, result.0@) == StatementView::walked_block::<SetListLowering>(block@, 0, false),
{
    let mut pass = SetListLowering { lowered: 0 };
    let block = walk_block(block, &mut pass, false);
    (block, pass.lowered)
}

/// No block that is lowered holds a set-list without a tail any more.
pub proof fn lowering_leaves_none(block: Seq<StatementView>, count: usize, i: int)
    requires
        0 <= i < lowered_from(block, 0, count).1.len(),
    ensures
        !is_residual(lowered_from(block, 0, count).1[i]),
{
    lemma_lowered_from(block, 0, count, i);
}

proof fn lemma_lowered_from(block: Seq<StatementView>, from: int, count: usize, i: int)
    requires
        0 <= from <= block.len(),
        0 <= i < lowered_from(block, from, count).1.len(),
    ensures
        !is_residual(lowered_from(block, from, count).1[i]),
    decreases block.len() - from,
{
    if from < block.len() {
        let next = if is_residual(block[from]) {
            tally::bumped(count)
        } else {
            count
        };
        let first = stores_of(block[from]);
        let (last, rest) = lowered_from(block, from + 1, next);
        if i >= first.len() {
            lemma_lowered_from(block, from + 1, next, i - first.len());
        } else {
            assert((first + rest)[i] == first[i]);
        }
    }
}

} // verus!
