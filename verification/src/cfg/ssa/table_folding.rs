//! Moving what is stored in a fresh table into its constructor.

use vstd::prelude::*;

use rustc_hash::{FxHashMap, FxHashSet};

use crate::ast::alias_elimination::has_local;
use crate::ast::local::RcLocal;
use crate::ast::local_rw::LocalRw;
use crate::ast::nodes::{
    Assign, AssignView, Empty, LValue, LValueView, RValue, RValueView, SetList, Statement,
    StatementView, Table,
};
use crate::ast::{model, nodes};
use crate::cfg::ssa::substitution;
use crate::collections::{find_entry, has_member, insert_entry};

verus! {

broadcast use nodes::group_views;

/// The fields of a table, as models.
pub type FieldViews = Seq<(Option<RValueView>, RValueView)>;

/// Whether a table ends in an expression that can have many results.
pub open spec fn has_open_tail(fields: FieldViews) -> bool {
    fields.len() > 0 && fields.last().0 is None && (fields.last().1 is VarArg
        || fields.last().1 is Call || fields.last().1 is MethodCall)
}

/// The local and the fields of an assignment of a table to a local.
pub open spec fn table_assign(statement: StatementView) -> Option<(RcLocal, FieldViews)> {
    match statement {
        StatementView::Assign(assign) => if !assign.parallel && assign.left.len() == 1
            && assign.right.len() == 1 {
            match (assign.left[0], assign.right[0]) {
                (LValueView::Local(local), RValueView::Table(fields)) => Some((local, fields)),
                _ => None,
            }
        } else {
            None
        },
        _ => None,
    }
}

/// The assignment of a table with other fields.
pub open spec fn with_fields(statement: StatementView, fields: FieldViews) -> StatementView {
    match statement {
        StatementView::Assign(assign) => StatementView::Assign(
            AssignView { right: seq![RValueView::Table(fields)], ..assign },
        ),
        _ => statement,
    }
}

/// The key and the value of a write to a field of a local table.
pub open spec fn field_write(statement: StatementView, object: RcLocal) -> Option<
    (RValueView, RValueView),
> {
    match statement {
        StatementView::Assign(assign) => if !assign.prefix && !assign.parallel && assign.left.len()
            == 1 && assign.right.len() == 1 {
            match assign.left[0] {
                LValueView::Index(index) => if *index.left == RValueView::Local(object) {
                    Some((*index.right, assign.right[0]))
                } else {
                    None
                },
                _ => None,
            }
        } else {
            None
        },
        _ => None,
    }
}

/// Whether a write to a field cannot be moved into the constructor: the table
/// could be observed while the key and the value are computed.
pub open spec fn is_observed(
    observable: Set<u64>,
    object: RcLocal,
    key: RValueView,
    value: RValueView,
) -> bool {
    ||| observable.contains(object.id) && (key.has_side_effects() || value.has_side_effects())
    ||| key.reads().contains(object)
    ||| value.reads().contains(object)
}

/// A block with the writes to fields that follow the constructor at `at` moved
/// into it; and the count with those that were.
pub open spec fn absorbed(
    block: Seq<StatementView>,
    at: int,
    object: RcLocal,
    observable: Set<u64>,
    folded: nat,
) -> (Seq<StatementView>, nat)
    decreases block.len(),
{
    if 0 <= at && at + 1 < block.len() {
        match (field_write(block[at + 1], object), table_assign(block[at])) {
            (Some((key, value)), Some((_, fields))) => if is_observed(
                observable,
                object,
                key,
                value,
            ) {
                (block, folded)
            } else {
                absorbed(
                    block.update(at, with_fields(block[at], fields.push((Some(key), value)))).remove(
                        at + 1,
                    ),
                    at,
                    object,
                    observable,
                    folded + 1,
                )
            },
            _ => (block, folded),
        }
    } else {
        (block, folded)
    }
}

/// A block with writes to fields moved into the constructors from statement
/// `at` on, and the count with those that were moved.
pub open spec fn fields_folded(
    block: Seq<StatementView>,
    at: int,
    observable: Set<u64>,
    folded: nat,
) -> (Seq<StatementView>, nat)
    decreases block.len() - at,
{
    if 0 <= at < block.len() {
        let (next, count) = match table_assign(block[at]) {
            Some((object, fields)) => if has_open_tail(fields) {
                (block, folded)
            } else {
                absorbed(block, at, object, observable, folded)
            },
            None => (block, folded),
        };
        proof {
            match table_assign(block[at]) {
                Some((object, fields)) => lemma_absorbed(block, at, object, observable, folded),
                None => {},
            }
        }
        fields_folded(next, at + 1, observable, count)
    } else {
        (block, folded)
    }
}

proof fn lemma_weight_remove(block: Seq<StatementView>, from: int, at: int)
    requires
        0 <= from <= at < block.len(),
    ensures
        substitution::weight_from(block.remove(at), from) + substitution::weight(block[at])
            == substitution::weight_from(block, from),
    decreases at - from,
{
    let after = block.remove(at);
    if from < at {
        lemma_weight_remove(block, from + 1, at);
    } else {
        lemma_weight_shift(block, after, from + 1);
    }
}

proof fn lemma_weight_shift(block: Seq<StatementView>, after: Seq<StatementView>, from: int)
    requires
        1 <= from <= block.len(),
        after.len() == block.len() - 1,
        forall|i: int| from <= i < block.len() ==> block[i] == after[i - 1],
    ensures
        substitution::weight_from(block, from) == substitution::weight_from(after, from - 1),
    decreases block.len() - from,
{
    if from < block.len() {
        lemma_weight_shift(block, after, from + 1);
    }
}

/// Moving writes into a constructor takes statements away.
pub proof fn lemma_absorbed(
    block: Seq<StatementView>,
    at: int,
    object: RcLocal,
    observable: Set<u64>,
    folded: nat,
)
    ensures
        absorbed(block, at, object, observable, folded).0.len() <= block.len(),
        0 <= at < block.len() ==> at < absorbed(block, at, object, observable, folded).0.len(),
        absorbed(block, at, object, observable, folded).0.len() + absorbed(block, at, object, observable, folded).1 <= block.len() + folded,
        ({
            let (after, count) = absorbed(block, at, object, observable, folded);
            substitution::weight_from(after, 0) + count <= substitution::weight_from(block, 0)
                + folded
        }),
    decreases block.len(),
{
    if 0 <= at && at + 1 < block.len() {
        match (field_write(block[at + 1], object), table_assign(block[at])) {
            (Some((key, value)), Some((_, fields))) => {
                if !is_observed(observable, object, key, value) {
                    let put = with_fields(block[at], fields.push((Some(key), value)));
                    let next = block.update(at, put);
                    substitution::lemma_weight_update(block, 0, at, put);
                    assert(next[at + 1] == block[at + 1]);
                    lemma_weight_remove(next, 0, at + 1);
                    lemma_absorbed(next.remove(at + 1), at, object, observable, folded + 1);
                }
            },
            _ => {},
        }
    }
}

pub proof fn lemma_fields_folded(
    block: Seq<StatementView>,
    at: int,
    observable: Set<u64>,
    folded: nat,
)
    ensures
        fields_folded(block, at, observable, folded).0.len() + fields_folded(block, at, observable, folded).1 <= block.len() + folded,
        ({
            let (after, count) = fields_folded(block, at, observable, folded);
            substitution::weight_from(after, 0) + count <= substitution::weight_from(block, 0)
                + folded
        }),
    decreases block.len() - at,
{
    if 0 <= at < block.len() {
        let (next, count) = match table_assign(block[at]) {
            Some((object, fields)) => if has_open_tail(fields) {
                (block, folded)
            } else {
                absorbed(block, at, object, observable, folded)
            },
            None => (block, folded),
        };
        match table_assign(block[at]) {
            Some((object, fields)) => lemma_absorbed(block, at, object, observable, folded),
            None => {},
        }
        lemma_fields_folded(next, at + 1, observable, count);
    }
}

fn ends_open(fields: &Vec<(Option<RValue>, RValue)>) -> (result: bool)
    ensures
        result == has_open_tail(RValue::field_views(fields@)),
{
    if fields.len() == 0 {
        return false;
    }
    let last = fields.len() - 1;
    let ghost views = RValue::field_views(fields@);
    proof {
        assert(views[last as int].0 == RValue::option_view(fields@[last as int].0));
        assert(views[last as int].1 == fields@[last as int].1@);
        nodes::rvalue_node(fields@[last as int].1);
    }
    fields[last].0.is_none() && matches!(
        &fields[last].1,
        RValue::VarArg(_) | RValue::Call(_) | RValue::MethodCall(_)
    )
}

fn find_table_assign<'a>(statement: &'a Statement) -> (found: Option<
    (RcLocal, &'a Vec<(Option<RValue>, RValue)>),
>)
    ensures
        match found {
            Some((local, fields)) => table_assign(statement@) == Some(
                (local, RValue::field_views(fields@)),
            ),
            None => table_assign(statement@) is None,
        },
{
    match statement.as_assign() {
        Some(assign) => {
            proof {
                nodes::assign_node(*assign);
            }
            if assign.parallel || assign.left.len() != 1 || assign.right.len() != 1 {
                return None;
            }
            proof {
                assert(assign@.left[0] == assign.left@[0]@);
                assert(assign@.right[0] == assign.right@[0]@);
                nodes::rvalue_node(assign.right@[0]);
            }
            match (assign.left[0].as_local(), &assign.right[0]) {
                (Some(local), RValue::Table(table)) => Some((local, &table.0)),
                _ => None,
            }
        },
        None => None,
    }
}

fn find_field_write<'a>(statement: &'a Statement, object: RcLocal) -> (found: Option<
    (&'a RValue, &'a RValue),
>)
    ensures
        match found {
            Some((key, value)) => field_write(statement@, object) == Some((key@, value@)),
            None => field_write(statement@, object) is None,
        },
{
    match statement.as_assign() {
        Some(assign) => {
            proof {
                nodes::assign_node(*assign);
            }
            if assign.prefix || assign.parallel || assign.left.len() != 1 || assign.right.len()
                != 1 {
                return None;
            }
            proof {
                assert(assign@.left[0] == assign.left@[0]@);
                assert(assign@.right[0] == assign.right@[0]@);
                nodes::lvalue_node(assign.left@[0]);
            }
            match &assign.left[0] {
                LValue::Index(index) => if index.left.as_local() == Some(object) {
                    Some((&*index.right, &assign.right[0]))
                } else {
                    None
                },
                _ => None,
            }
        },
        None => None,
    }
}

/// Takes the fields out of an assignment of a table, and puts others in.
fn add_field(statement: Statement, key: RValue, value: RValue, Ghost(fields): Ghost<FieldViews>) -> (added:
    Statement)
    requires
        table_assign(statement@) matches Some((_, held)) && held == fields,
    ensures
        added@ == with_fields(statement@, fields.push((Some(key@), value@))),
{
    let ghost whole = statement@;
    proof {
        nodes::statement_node(statement);
    }
    match statement {
        Statement::Assign(assign) => {
            proof {
                nodes::assign_node(assign);
                assert(assign@.right[0] == assign.right@[0]@);
                nodes::rvalue_node(assign.right@[0]);
            }
            let Assign { left, right, prefix, parallel } = assign;
            let mut right = right;
            let first = right.remove(0);
            match first {
                RValue::Table(table) => {
                    let mut list = table.0;
                    let ghost held = RValue::field_views(list@);
                    let ghost put = (Some(key@), value@);
                    list.push((Some(key), value));
                    proof {
                        assert(RValue::field_views(list@) =~= held.push(put));
                    }
                    let grown = RValue::Table(Table(list));
                    proof {
                        nodes::rvalue_node(grown);
                    }
                    let ghost grown_view = grown@;
                    let mut values: Vec<RValue> = Vec::new();
                    values.push(grown);
                    let assign = Assign { left, right: values, prefix, parallel };
                    let added = Statement::Assign(assign);
                    proof {
                        assert(RValue::views(values@) =~= seq![grown_view]);
                        nodes::assign_node(assign);
                        nodes::statement_node(added);
                    }
                    added
                },
                other => {
                    right.push(other);
                    Statement::Assign(Assign { left, right, prefix, parallel })
                },
            }
        },
        other => other,
    }
}

/// Moves writes to fields into the constructors before them.
pub fn fold_table_fields(block: Vec<Statement>, observable: &FxHashSet<u64>) -> (result: (
    Vec<Statement>,
    usize,
))
    ensures
        ({
            let (after, count) = fields_folded(Statement::views(block@), 0, observable@, 0);
            Statement::views(result.0@) == after && result.1 == count
        }),
{
    let ghost whole = fields_folded(Statement::views(block@), 0, observable@, 0);
    let length: usize = block.len();
    let mut rest = block;
    let mut count: usize = 0;
    let mut at: usize = 0;
    while at < rest.len()
        invariant
            at <= rest@.len(),
            rest@.len() + count <= length,
            whole == fields_folded(
                Statement::views(rest@),
                at as int,
                observable@,
                count as nat,
            ),
        decreases rest@.len() - at,
    {
        let ghost views = Statement::views(rest@);
        proof {
            assert(views[at as int] == rest@[at as int]@);
            assert(views.len() == rest@.len());
        }
        let object = match find_table_assign(&rest[at]) {
            Some((object, fields)) => if ends_open(fields) {
                None
            } else {
                Some(object)
            },
            None => None,
        };
        if let Some(object) = object {
            proof {
                lemma_absorbed(views, at as int, object, observable@, count as nat);
            }
            let (next, more) = absorb(rest, at, object, observable, count);
            rest = next;
            count = more;
            proof {
                assert(Statement::views(rest@).len() == rest@.len());
            }
        }
        at += 1;
    }
    (rest, count)
}

fn absorb(
    block: Vec<Statement>,
    at: usize,
    object: RcLocal,
    observable: &FxHashSet<u64>,
    folded: usize,
) -> (result: (Vec<Statement>, usize))
    requires
        at < block@.len(),
        block@.len() + folded <= usize::MAX,
    ensures
        ({
            let (after, count) = absorbed(
                Statement::views(block@),
                at as int,
                object,
                observable@,
                folded as nat,
            );
            Statement::views(result.0@) == after && result.1 == count
        }),
        at < result.0@.len() <= block@.len(),
        result.0@.len() + result.1 <= block@.len() + folded,
{
    let ghost whole = absorbed(
        Statement::views(block@),
        at as int,
        object,
        observable@,
        folded as nat,
    );
    let mut rest = block;
    let mut count: usize = folded;
    let mut done = false;
    while !done
        invariant
            at < rest@.len() <= block@.len(),
            rest@.len() + count <= block@.len() + folded <= usize::MAX,
            !done ==> whole == absorbed(
                Statement::views(rest@),
                at as int,
                object,
                observable@,
                count as nat,
            ),
            done ==> whole == (Statement::views(rest@), count as nat),
        decreases rest@.len(), (if done {
            0int
        } else {
            1int
        }),
    {
        let ghost views = Statement::views(rest@);
        let length: usize = rest.len();
        proof {
            assert(views.len() == rest@.len());
            assert(views[at as int] == rest@[at as int]@);
        }
        if at + 1 >= length {
            done = true;
        } else {
            proof {
                assert(views[at + 1] == rest@[at + 1]@);
            }
            let is_table = find_table_assign(&rest[at]).is_some();
            let moved = match find_field_write(&rest[at + 1], object) {
                Some((key, value)) => if !is_table || (has_member(observable, object.id) && (
                key.has_side_effects() || value.has_side_effects())) || has_local(
                    &key.values_read(),
                    object,
                ) || has_local(&value.values_read(), object) {
                    None
                } else {
                    Some((key.clone(), value.clone()))
                },
                None => None,
            };
            match moved {
                Some((key, value)) => {
                    let ghost fields = match table_assign(views[at as int]) {
                        Some((_, fields)) => fields,
                        None => Seq::empty(),
                    };
                    let ghost put = (key@, value@);
                    let statement = rest.remove(at);
                    let added = add_field(statement, key, value, Ghost(fields));
                    let ghost after = added@;
                    rest.insert(at, added);
                    proof {
                        assert(Statement::views(rest@) =~= views.update(at as int, after));
                    }
                    let taken = rest.remove(at + 1);
                    proof {
                        assert(Statement::views(rest@) =~= views.update(at as int, after).remove(
                            at + 1,
                        ));
                    }
                    count += 1;
                },
                None => {
                    done = true;
                },
            }
        }
    }
    (rest, count)
}

/// The last of the statements before `before` that writes a local.
pub open spec fn last_write(
    block: Seq<StatementView>,
    before: int,
    local: RcLocal,
) -> Option<int>
    decreases before,
{
    if before <= 0 || before > block.len() {
        None
    } else if block[before - 1].writes().contains(local) {
        Some(before - 1)
    } else {
        last_write(block, before - 1, local)
    }
}

/// An assignment of a local to a local: where it stands, its target and its
/// source.
pub type Alias = (int, RcLocal, RcLocal);

/// Whether a local is read once.
pub open spec fn is_read_once(usages: Map<u64, usize>, local: RcLocal) -> bool {
    usages.dom().contains(local.id) && usages[local.id] == 1
}

/// The assignment of a table to a local, before `before`, through assignments
/// of locals that are read once: where it stands, the assignments between, and
/// the local that it assigns.
pub open spec fn constructor(
    block: Seq<StatementView>,
    before: int,
    local: RcLocal,
    usages: Map<u64, usize>,
    aliases: Seq<Alias>,
) -> Option<(int, Seq<Alias>, RcLocal)>
    decreases before,
{
    proof {
        lemma_last_write(block, before, local);
    }
    match last_write(block, before, local) {
        Some(at) => match block[at] {
            StatementView::Assign(assign) => if assign.parallel || assign.left.len() != 1
                || assign.right.len() != 1 || assign.left[0] != LValueView::Local(local) {
                None
            } else {
                match assign.right[0] {
                    RValueView::Table(_) => Some((at, aliases, local)),
                    RValueView::Local(source) => if is_read_once(usages, local) {
                        constructor(block, at, source, usages, aliases.push((at, local, source)))
                    } else {
                        None
                    },
                    _ => None,
                }
            },
            _ => None,
        },
        None => None,
    }
}

pub proof fn lemma_last_write(block: Seq<StatementView>, before: int, local: RcLocal)
    ensures
        match last_write(block, before, local) {
            Some(at) => 0 <= at < before <= block.len(),
            None => true,
        },
    decreases before,
{
    if before > 0 && before <= block.len() {
        lemma_last_write(block, before - 1, local);
    }
}

/// Whether assignments of locals stand one before the other, before `before`.
spec fn are_before(block: Seq<StatementView>, aliases: Seq<Alias>, before: int) -> bool {
    forall|i: int|
        0 <= i < aliases.len() ==> 0 <= (#[trigger] aliases[i]).0 < before && before <= block.len()
}

proof fn lemma_constructor(
    block: Seq<StatementView>,
    before: int,
    local: RcLocal,
    usages: Map<u64, usize>,
    aliases: Seq<Alias>,
    end: int,
)
    requires
        before <= end <= block.len(),
        are_before(block, aliases, end),
    ensures
        match constructor(block, before, local, usages, aliases) {
            Some((at, found, defined)) => {
                &&& 0 <= at < before
                &&& are_before(block, found, end)
                &&& table_assign(block[at]) matches Some((target, _)) && target == defined
            },
            None => true,
        },
    decreases before,
{
    lemma_last_write(block, before, local);
    match last_write(block, before, local) {
        Some(at) => match block[at] {
            StatementView::Assign(assign) => {
                if !(assign.parallel || assign.left.len() != 1 || assign.right.len() != 1
                    || assign.left[0] != LValueView::Local(local)) {
                    match assign.right[0] {
                        RValueView::Local(source) => {
                            lemma_constructor(
                                block,
                                at,
                                source,
                                usages,
                                aliases.push((at, local, source)),
                                end,
                            );
                        },
                        _ => {},
                    }
                }
            },
            _ => {},
        },
        None => {},
    }
}

/// How many of the fields from position `from` on have no key.
pub open spec fn unkeyed_from(fields: FieldViews, from: int) -> nat
    decreases fields.len() - from,
{
    if 0 <= from < fields.len() {
        unkeyed_from(fields, from + 1) + (if fields[from].0 is None {
            1nat
        } else {
            0nat
        })
    } else {
        0
    }
}

/// The values that a batch stores, with its tail.
pub open spec fn batch_values(values: Seq<RValueView>, tail: Option<RValueView>) -> Seq<RValueView> {
    values + model::optional(tail)
}

/// Whether the local `local` is one that the assignments define, or `defined`.
pub open spec fn is_crossed(aliases: Seq<Alias>, defined: RcLocal, local: RcLocal) -> bool {
    local == defined || exists|i: int|
        0 <= i < aliases.len() && (#[trigger] aliases[i]).1 == local
}

/// Whether one of some locals is crossed.
pub open spec fn crosses(aliases: Seq<Alias>, defined: RcLocal, locals: Seq<RcLocal>) -> bool {
    exists|i: int| 0 <= i < locals.len() && is_crossed(aliases, defined, #[trigger] locals[i])
}

/// Whether an assignment of locals stands at a statement.
pub open spec fn is_alias_at(aliases: Seq<Alias>, at: int) -> bool {
    exists|i: int| 0 <= i < aliases.len() && (#[trigger] aliases[i]).0 == at
}

/// Whether nothing stands between a constructor and a batch but assignments of
/// its local.
pub open spec fn stays_in_place(
    block: Seq<StatementView>,
    table: int,
    at: int,
    aliases: Seq<Alias>,
) -> bool {
    forall|i: int|
        table < i < at ==> is_alias_at(aliases, i) || (#[trigger] block[i] is Empty)
}

/// Whether nothing between a constructor and a batch reads or writes a local
/// that is crossed.
pub open spec fn is_unobserved(
    block: Seq<StatementView>,
    table: int,
    at: int,
    aliases: Seq<Alias>,
    defined: RcLocal,
) -> bool {
    forall|i: int|
        table < i < at && !is_alias_at(aliases, i) ==> !crosses(
            aliases,
            defined,
            (#[trigger] block[i]).reads(),
        ) && !crosses(aliases, defined, block[i].writes())
}

/// Whether a table's fields can be computed later: none has effects or reads a
/// local.
pub open spec fn is_movable(fields: FieldViews) -> bool {
    &&& forall|i: int|
        0 <= i < fields.len() ==> !(#[trigger] fields[i]).1.has_side_effects() && (
        fields[i].0 is Some ==> !fields[i].0->0.has_side_effects())
    &&& RValueView::Table(fields).reads().len() == 0
}

/// Fields with values added that have no key.
pub open spec fn with_values(fields: FieldViews, values: Seq<RValueView>) -> FieldViews {
    fields + Seq::new(values.len(), |i: int| (None::<RValueView>, values[i]))
}

/// A count of reads with one fewer of a local.
pub open spec fn with_fewer(usages: Map<u64, usize>, local: RcLocal) -> Map<u64, usize> {
    if usages.dom().contains(local.id) && usages[local.id] > 0 {
        usages.insert(local.id, (usages[local.id] - 1) as usize)
    } else {
        usages
    }
}

/// A count of reads with one fewer of the source of each of the assignments
/// before `count`.
pub open spec fn with_fewer_sources(
    usages: Map<u64, usize>,
    aliases: Seq<Alias>,
    count: int,
) -> Map<u64, usize>
    decreases count,
{
    if 0 < count <= aliases.len() {
        with_fewer(with_fewer_sources(usages, aliases, count - 1), aliases[count - 1].2)
    } else {
        usages
    }
}

/// A block without the first `count` of the assignments.
pub open spec fn emptied(block: Seq<StatementView>, aliases: Seq<Alias>, count: int) -> Seq<
    StatementView,
>
    decreases count,
{
    if 0 < count <= aliases.len() {
        emptied(block, aliases, count - 1).update(aliases[count - 1].0, StatementView::Empty)
    } else {
        block
    }
}

/// The constructor that a batch can be moved into.
pub open spec fn batch_constructor(
    block: Seq<StatementView>,
    at: int,
    usages: Map<u64, usize>,
) -> Option<(int, Seq<Alias>, RcLocal)> {
    match block[at] {
        StatementView::SetList { object_local, index, values, tail } => {
            match constructor(block, at, object_local, usages, Seq::empty()) {
                Some((table, aliases, defined)) => {
                    match table_assign(block[table]) {
                        Some((_, fields)) => {
                            let reads = RValueView::reads_from(batch_values(values, tail), 0);
                            if index >= 1 && !has_open_tail(fields) && unkeyed_from(fields, 0)
                                == index - 1 && !crosses(aliases, defined, reads)
                                && usages.dom().contains(object_local.id)
                                && usages[object_local.id] > 0 && (stays_in_place(
                                block,
                                table,
                                at,
                                aliases,
                            ) || (is_movable(fields) && is_unobserved(
                                block,
                                table,
                                at,
                                aliases,
                                defined,
                            ))) {
                                Some((table, aliases, defined))
                            } else {
                                None
                            }
                        },
                        None => None,
                    }
                },
                None => None,
            }
        },
        _ => None,
    }
}

/// A block with the batch at a statement moved into its constructor, and the
/// count of reads then. The constructor stays where it is if it can; else it
/// moves to the batch, and the assignments between go.
pub open spec fn batch_folded(
    block: Seq<StatementView>,
    at: int,
    usages: Map<u64, usize>,
) -> Option<(Seq<StatementView>, Map<u64, usize>)> {
    match (batch_constructor(block, at, usages), block[at]) {
        (
            Some((table, aliases, defined)),
            StatementView::SetList { object_local, index, values, tail },
        ) => {
            match table_assign(block[table]) {
                Some((_, fields)) => {
                    let grown = with_fields(
                        block[table],
                        with_values(fields, batch_values(values, tail)),
                    );
                    let fewer = with_fewer(usages, object_local);
                    if stays_in_place(block, table, at, aliases) {
                        Some(
                            (block.update(table, grown).update(at, StatementView::Empty), fewer),
                        )
                    } else {
                        Some(
                            (
                                emptied(
                                    block.update(table, StatementView::Empty),
                                    aliases,
                                    aliases.len() as int,
                                ).update(at, grown),
                                with_fewer_sources(fewer, aliases, aliases.len() as int),
                            ),
                        )
                    }
                },
                None => None,
            }
        },
        _ => None,
    }
}

/// A block with the batches from statement `at` on moved into constructors, the
/// count of reads then, and the count with those that were moved.
pub open spec fn batches_folded(
    block: Seq<StatementView>,
    at: int,
    usages: Map<u64, usize>,
    folded: nat,
) -> (Seq<StatementView>, Map<u64, usize>, nat)
    decreases block.len() - at,
{
    if 0 <= at < block.len() {
        match batch_folded(block, at, usages) {
            Some((next, fewer)) => {
                proof {
                    lemma_batch_folded(block, at, usages);
                }
                batches_folded(next, at + 1, fewer, folded + 1)
            },
            None => batches_folded(block, at + 1, usages, folded),
        }
    } else {
        (block, usages, folded)
    }
}

proof fn lemma_emptied(block: Seq<StatementView>, aliases: Seq<Alias>, count: int, end: int)
    requires
        0 <= count <= aliases.len(),
        are_before(block, aliases, end),
        end < block.len(),
    ensures
        emptied(block, aliases, count).len() == block.len(),
        emptied(block, aliases, count)[end] == block[end],
        substitution::weight_from(emptied(block, aliases, count), 0)
            <= substitution::weight_from(block, 0),
    decreases count,
{
    if count > 0 {
        lemma_emptied(block, aliases, count - 1, end);
        let before = emptied(block, aliases, count - 1);
        assert(0 <= aliases[count - 1].0 < end);
        substitution::lemma_weight_update(before, 0, aliases[count - 1].0, StatementView::Empty);
    }
}

/// Moving a batch into its constructor leaves less to do.
pub proof fn lemma_batch_folded(block: Seq<StatementView>, at: int, usages: Map<u64, usize>)
    requires
        0 <= at < block.len(),
    ensures
        match batch_folded(block, at, usages) {
            Some((next, _)) => next.len() == block.len() && substitution::weight_from(next, 0)
                < substitution::weight_from(block, 0),
            None => true,
        },
{
    match block[at] {
        StatementView::SetList { object_local, index, values, tail } => {
            lemma_constructor(block, at, object_local, usages, Seq::empty(), at);
            match batch_constructor(block, at, usages) {
                Some((table, aliases, defined)) => {
                    match table_assign(block[table]) {
                        Some((_, fields)) => {
                            let grown = with_fields(
                                block[table],
                                with_values(fields, batch_values(values, tail)),
                            );
                            if stays_in_place(block, table, at, aliases) {
                                substitution::lemma_weight_update(block, 0, table, grown);
                                substitution::lemma_weight_update(
                                    block.update(table, grown),
                                    0,
                                    at,
                                    StatementView::Empty,
                                );
                            } else {
                                let first = block.update(table, StatementView::Empty);
                                substitution::lemma_weight_update(
                                    block,
                                    0,
                                    table,
                                    StatementView::Empty,
                                );
                                assert(are_before(first, aliases, at)) by {
                                    assert(are_before(block, aliases, at));
                                }
                                lemma_emptied(first, aliases, aliases.len() as int, at);
                                substitution::lemma_weight_update(
                                    emptied(first, aliases, aliases.len() as int),
                                    0,
                                    at,
                                    grown,
                                );
                            }
                        },
                        None => {},
                    }
                },
                None => {},
            }
        },
        _ => {},
    }
}

pub proof fn lemma_batches_folded(
    block: Seq<StatementView>,
    at: int,
    usages: Map<u64, usize>,
    folded: nat,
)
    ensures
        0 <= at <= block.len() ==> batches_folded(block, at, usages, folded).2 <= folded + block.len() - at,
        ({
            let (after, _, count) = batches_folded(block, at, usages, folded);
            substitution::weight_from(after, 0) + count <= substitution::weight_from(block, 0)
                + folded
        }),
    decreases block.len() - at,
{
    if 0 <= at < block.len() {
        lemma_batch_folded(block, at, usages);
        match batch_folded(block, at, usages) {
            Some((next, fewer)) => lemma_batches_folded(next, at + 1, fewer, folded + 1),
            None => lemma_batches_folded(block, at + 1, usages, folded),
        }
    }
}

/// The models of assignments of locals.
spec fn alias_views(aliases: Seq<(usize, RcLocal, RcLocal)>) -> Seq<Alias> {
    Seq::new(aliases.len(), |i: int| (aliases[i].0 as int, aliases[i].1, aliases[i].2))
}

fn find_last_write(block: &Vec<Statement>, before: usize, local: RcLocal) -> (found: Option<usize>)
    requires
        before <= block@.len(),
    ensures
        match last_write(Statement::views(block@), before as int, local) {
            Some(at) => found == Some(at as usize) && 0 <= at < before,
            None => found is None,
        },
{
    let ghost views = Statement::views(block@);
    let ghost whole = last_write(views, before as int, local);
    let mut at: usize = before;
    while at > 0
        invariant
            at <= before <= block@.len() == views.len(),
            views == Statement::views(block@),
            whole == last_write(views, before as int, local),
            whole == last_write(views, at as int, local),
        decreases at,
    {
        proof {
            assert(views[at - 1] == block@[at - 1]@);
        }
        if has_local(&block[at - 1].values_written(), local) {
            return Some(at - 1);
        }
        at -= 1;
    }
    None
}

fn find_constructor(
    block: &Vec<Statement>,
    before: usize,
    local: RcLocal,
    usages: &FxHashMap<u64, usize>,
) -> (found: Option<(usize, Vec<(usize, RcLocal, RcLocal)>, RcLocal)>)
    requires
        before <= block@.len(),
    ensures
        match found {
            Some((table, aliases, defined)) => table < before && constructor(
                Statement::views(block@),
                before as int,
                local,
                usages@,
                Seq::empty(),
            ) == Some((table as int, alias_views(aliases@), defined)),
            None => constructor(
                Statement::views(block@),
                before as int,
                local,
                usages@,
                Seq::empty(),
            ) is None,
        },
{
    let ghost views = Statement::views(block@);
    let ghost whole = constructor(views, before as int, local, usages@, Seq::empty());
    let mut aliases: Vec<(usize, RcLocal, RcLocal)> = Vec::new();
    let mut defined = local;
    let mut end: usize = before;
    proof {
        assert(alias_views(aliases@) =~= Seq::empty());
    }
    loop
        invariant
            end <= before <= block@.len() == views.len(),
            views == Statement::views(block@),
            whole == constructor(views, before as int, local, usages@, Seq::empty()),
            whole == constructor(views, end as int, defined, usages@, alias_views(aliases@)),
        decreases end,
    {
        let at = match find_last_write(block, end, defined) {
            Some(at) => at,
            None => {
                return None;
            },
        };
        proof {
            assert(views[at as int] == block@[at as int]@);
        }
        let assign = match block[at].as_assign() {
            Some(assign) => assign,
            None => {
                return None;
            },
        };
        proof {
            nodes::assign_node(*assign);
        }
        if assign.parallel || assign.left.len() != 1 || assign.right.len() != 1 {
            return None;
        }
        proof {
            assert(assign@.left[0] == assign.left@[0]@);
            assert(assign@.right[0] == assign.right@[0]@);
            nodes::rvalue_node(assign.right@[0]);
        }
        if assign.left[0].as_local() != Some(defined) {
            return None;
        }
        match &assign.right[0] {
            RValue::Table(_) => {
                return Some((at, aliases, defined));
            },
            RValue::Local(source) => {
                let once = match find_entry(usages, defined.id) {
                    Some(count) => *count == 1,
                    None => false,
                };
                if !once {
                    return None;
                }
                let ghost held = alias_views(aliases@);
                aliases.push((at, defined, *source));
                proof {
                    assert(alias_views(aliases@) =~= held.push((at as int, defined, *source)));
                }
                defined = *source;
                end = at;
            },
            _ => {
                return None;
            },
        }
    }
}

fn count_unkeyed(fields: &Vec<(Option<RValue>, RValue)>) -> (count: usize)
    ensures
        count == unkeyed_from(RValue::field_views(fields@), 0),
{
    let ghost views = RValue::field_views(fields@);
    let length: usize = fields.len();
    let mut count: usize = 0;
    let mut at: usize = length;
    while at > 0
        invariant
            at <= length == fields@.len() == views.len(),
            views == RValue::field_views(fields@),
            count == unkeyed_from(views, at as int),
            count <= length - at,
        decreases at,
    {
        at -= 1;
        proof {
            assert(views[at as int].0 == RValue::option_view(fields@[at as int].0));
        }
        if fields[at].0.is_none() {
            count += 1;
        }
    }
    count
}

fn has_crossed(aliases: &Vec<(usize, RcLocal, RcLocal)>, defined: RcLocal, local: RcLocal) -> (result:
    bool)
    ensures
        result == is_crossed(alias_views(aliases@), defined, local),
{
    if local == defined {
        return true;
    }
    let ghost views = alias_views(aliases@);
    let mut at: usize = 0;
    while at < aliases.len()
        invariant
            at <= aliases@.len() == views.len(),
            views == alias_views(aliases@),
            forall|i: int| 0 <= i < at ==> (#[trigger] views[i]).1 != local,
        decreases aliases.len() - at,
    {
        if aliases[at].1 == local {
            assert(views[at as int].1 == local);
            return true;
        }
        at += 1;
    }
    false
}

fn crosses_any(
    aliases: &Vec<(usize, RcLocal, RcLocal)>,
    defined: RcLocal,
    locals: &Vec<RcLocal>,
) -> (result: bool)
    ensures
        result == crosses(alias_views(aliases@), defined, locals@),
{
    let mut at: usize = 0;
    while at < locals.len()
        invariant
            at <= locals@.len(),
            forall|i: int|
                0 <= i < at ==> !is_crossed(
                    alias_views(aliases@),
                    defined,
                    #[trigger] locals@[i],
                ),
        decreases locals.len() - at,
    {
        if has_crossed(aliases, defined, locals[at]) {
            assert(is_crossed(alias_views(aliases@), defined, locals@[at as int]));
            return true;
        }
        at += 1;
    }
    false
}

fn has_alias_at(aliases: &Vec<(usize, RcLocal, RcLocal)>, at: usize) -> (result: bool)
    ensures
        result == is_alias_at(alias_views(aliases@), at as int),
{
    let ghost views = alias_views(aliases@);
    let mut index: usize = 0;
    while index < aliases.len()
        invariant
            index <= aliases@.len() == views.len(),
            views == alias_views(aliases@),
            forall|i: int| 0 <= i < index ==> (#[trigger] views[i]).0 != at,
        decreases aliases.len() - index,
    {
        if aliases[index].0 == at {
            assert(views[index as int].0 == at);
            return true;
        }
        index += 1;
    }
    false
}

fn can_stay(
    block: &Vec<Statement>,
    table: usize,
    at: usize,
    aliases: &Vec<(usize, RcLocal, RcLocal)>,
) -> (result: bool)
    requires
        table < at <= block@.len(),
    ensures
        result == stays_in_place(
            Statement::views(block@),
            table as int,
            at as int,
            alias_views(aliases@),
        ),
{
    let ghost views = Statement::views(block@);
    let mut index: usize = table + 1;
    while index < at
        invariant
            table < index <= at <= block@.len() == views.len(),
            views == Statement::views(block@),
            forall|i: int|
                table < i < index ==> is_alias_at(alias_views(aliases@), i) || (
                #[trigger] views[i] is Empty),
        decreases at - index,
    {
        proof {
            assert(views[index as int] == block@[index as int]@);
            nodes::statement_node(block@[index as int]);
        }
        if !has_alias_at(aliases, index) && !matches!(&block[index], Statement::Empty(_)) {
            assert(!(views[index as int] is Empty));
            return false;
        }
        index += 1;
    }
    true
}

fn unobserved(
    block: &Vec<Statement>,
    table: usize,
    at: usize,
    aliases: &Vec<(usize, RcLocal, RcLocal)>,
    defined: RcLocal,
) -> (result: bool)
    requires
        table < at <= block@.len(),
    ensures
        result == is_unobserved(
            Statement::views(block@),
            table as int,
            at as int,
            alias_views(aliases@),
            defined,
        ),
{
    let ghost views = Statement::views(block@);
    let ghost list = alias_views(aliases@);
    let mut index: usize = table + 1;
    while index < at
        invariant
            table < index <= at <= block@.len() == views.len(),
            views == Statement::views(block@),
            list == alias_views(aliases@),
            forall|i: int|
                table < i < index && !is_alias_at(list, i) ==> !crosses(
                    list,
                    defined,
                    (#[trigger] views[i]).reads(),
                ) && !crosses(list, defined, views[i].writes()),
        decreases at - index,
    {
        proof {
            assert(views[index as int] == block@[index as int]@);
        }
        if !has_alias_at(aliases, index) && (crosses_any(
            aliases,
            defined,
            &block[index].values_read(),
        ) || crosses_any(aliases, defined, &block[index].values_written())) {
            assert(crosses(list, defined, views[index as int].reads()) || crosses(
                list,
                defined,
                views[index as int].writes(),
            ));
            return false;
        }
        index += 1;
    }
    true
}

fn movable(fields: &Vec<(Option<RValue>, RValue)>, value: &RValue) -> (result: bool)
    requires
        value@ == RValueView::Table(RValue::field_views(fields@)),
    ensures
        result == is_movable(RValue::field_views(fields@)),
{
    let ghost views = RValue::field_views(fields@);
    let mut at: usize = 0;
    while at < fields.len()
        invariant
            at <= fields@.len() == views.len(),
            views == RValue::field_views(fields@),
            forall|i: int|
                0 <= i < at ==> !(#[trigger] views[i]).1.has_side_effects() && (
                views[i].0 is Some ==> !views[i].0->0.has_side_effects()),
        decreases fields.len() - at,
    {
        proof {
            assert(views[at as int].0 == RValue::option_view(fields@[at as int].0));
            assert(views[at as int].1 == fields@[at as int].1@);
        }
        let keyed = match &fields[at].0 {
            Some(key) => key.has_side_effects(),
            None => false,
        };
        if keyed || fields[at].1.has_side_effects() {
            assert(views[at as int].1.has_side_effects() || (views[at as int].0 is Some
                && views[at as int].0->0.has_side_effects()));
            return false;
        }
        at += 1;
    }
    value.values_read().len() == 0
}

fn lower_usage(usages: &mut FxHashMap<u64, usize>, local: RcLocal)
    ensures
        final(usages)@ == with_fewer(old(usages)@, local),
{
    let held = match find_entry(usages, local.id) {
        Some(count) => Some(*count),
        None => None,
    };
    if let Some(count) = held {
        if count > 0 {
            insert_entry(usages, local.id, count - 1);
        }
    }
}

/// The reads of a batch.
fn batch_reads(set_list: &SetList) -> (reads: Vec<RcLocal>)
    ensures
        reads@ == RValueView::reads_from(
            batch_values(
                RValue::views(set_list.values@),
                RValue::option_view(set_list.tail),
            ),
            0,
        ),
{
    let ghost views = RValue::views(set_list.values@);
    let ghost all = batch_values(views, RValue::option_view(set_list.tail));
    let ghost whole = RValueView::reads_from(all, 0);
    let mut reads: Vec<RcLocal> = Vec::new();
    let mut at: usize = 0;
    proof {
        assert(reads@ + whole =~= whole);
    }
    while at < set_list.values.len()
        invariant
            at <= set_list.values@.len() == views.len(),
            views == RValue::views(set_list.values@),
            all == batch_values(views, RValue::option_view(set_list.tail)),
            reads@ + RValueView::reads_from(all, at as int) == whole,
        decreases set_list.values.len() - at,
    {
        let ghost held = reads@;
        proof {
            assert(views[at as int] == set_list.values@[at as int]@);
            assert(all[at as int] == views[at as int]);
        }
        let mut more = set_list.values[at].values_read();
        let ghost added = more@;
        reads.append(&mut more);
        proof {
            let rest = RValueView::reads_from(all, at + 1);
            assert(reads@ + rest =~= held + (added + rest));
        }
        at += 1;
    }
    if let Some(tail) = &set_list.tail {
        let ghost held = reads@;
        proof {
            assert(all[views.len() as int] == tail@);
            assert(RValueView::reads_from(all, views.len() as int + 1) =~= Seq::empty());
        }
        let mut more = tail.values_read();
        reads.append(&mut more);
        proof {
            assert(reads@ =~= held + RValueView::reads_from(all, views.len() as int));
        }
    } else {
        proof {
            assert(reads@ + Seq::<RcLocal>::empty() =~= reads@);
        }
    }
    reads
}

/// The assignment of a table with values added that have no key.
fn add_values(
    statement: &Statement,
    values: Vec<RValue>,
    tail: Option<RValue>,
    Ghost(fields): Ghost<FieldViews>,
) -> (added: Statement)
    requires
        table_assign(statement@) matches Some((_, held)) && held == fields,
    ensures
        added@ == with_fields(
            statement@,
            with_values(
                fields,
                batch_values(RValue::views(values@), RValue::option_view(tail)),
            ),
        ),
{
    let ghost list = batch_values(RValue::views(values@), RValue::option_view(tail));
    let copy = statement.clone();
    proof {
        nodes::statement_node(copy);
    }
    match copy {
        Statement::Assign(assign) => {
            proof {
                nodes::assign_node(assign);
                assert(assign@.right[0] == assign.right@[0]@);
                nodes::rvalue_node(assign.right@[0]);
            }
            let Assign { left, right, prefix, parallel } = assign;
            let mut right = right;
            let first = right.remove(0);
            match first {
                RValue::Table(table) => {
                    let mut grown = table.0;
                    push_unkeyed(&mut grown, values);
                    let ghost held = RValue::field_views(grown@);
                    if let Some(tail) = tail {
                        let ghost put = tail@;
                        grown.push((None, tail));
                        proof {
                            assert(RValue::field_views(grown@) =~= held.push((None, put)));
                        }
                    }
                    proof {
                        assert(RValue::field_views(grown@) =~= with_values(fields, list));
                    }
                    let value = RValue::Table(Table(grown));
                    proof {
                        nodes::rvalue_node(value);
                    }
                    let ghost put = value@;
                    let mut all: Vec<RValue> = Vec::new();
                    all.push(value);
                    let assign = Assign { left, right: all, prefix, parallel };
                    let added = Statement::Assign(assign);
                    proof {
                        assert(RValue::views(all@) =~= seq![put]);
                        nodes::assign_node(assign);
                        nodes::statement_node(added);
                    }
                    added
                },
                other => {
                    right.push(other);
                    Statement::Assign(Assign { left, right, prefix, parallel })
                },
            }
        },
        other => other,
    }
}

fn push_unkeyed(fields: &mut Vec<(Option<RValue>, RValue)>, values: Vec<RValue>)
    ensures
        RValue::field_views(final(fields)@) == with_values(
            RValue::field_views(old(fields)@),
            RValue::views(values@),
        ),
{
    let ghost start = RValue::field_views(fields@);
    let ghost views = RValue::views(values@);
    let count: usize = values.len();
    let mut rest = values;
    let mut at: usize = 0;
    proof {
        assert(start =~= with_values(start, views.take(0)));
    }
    while at < count
        invariant
            at <= count == views.len(),
            rest@.len() == count - at,
            RValue::views(rest@) =~= views.skip(at as int),
            RValue::field_views(fields@) == with_values(start, views.take(at as int)),
        decreases count - at,
    {
        let ghost before = RValue::views(rest@);
        let ghost held = RValue::field_views(fields@);
        let value = rest.remove(0);
        proof {
            assert(before[0] == views[at as int]);
            assert(RValue::views(rest@) =~= before.skip(1));
            assert(before.skip(1) =~= views.skip(at + 1));
        }
        let ghost put = value@;
        fields.push((None, value));
        proof {
            assert(RValue::field_views(fields@) =~= held.push((None, put)));
            assert(held.push((None, put)) =~= with_values(start, views.take(at + 1)));
        }
        at += 1;
    }
    proof {
        assert(views.take(views.len() as int) =~= views);
    }
}

/// Finds the constructor that a batch can be moved into, and whether it stays.
fn find_batch_constructor(
    block: &Vec<Statement>,
    at: usize,
    usages: &FxHashMap<u64, usize>,
) -> (found: Option<(usize, Vec<(usize, RcLocal, RcLocal)>, bool)>)
    requires
        at < block@.len(),
    ensures
        match found {
            Some((table, aliases, stays)) => table < at && (batch_constructor(
                Statement::views(block@),
                at as int,
                usages@,
            ) matches Some((found_table, found_aliases, _)) && found_table == table
                && found_aliases == alias_views(aliases@)) && stays == stays_in_place(
                Statement::views(block@),
                table as int,
                at as int,
                alias_views(aliases@),
            ),
            None => batch_constructor(Statement::views(block@), at as int, usages@) is None,
        },
{
    let ghost views = Statement::views(block@);
    proof {
        assert(views[at as int] == block@[at as int]@);
        nodes::statement_node(block@[at as int]);
    }
    let set_list = match &block[at] {
        Statement::SetList(set_list) => set_list,
        _ => {
            return None;
        },
    };
    let (table, aliases, defined) = match find_constructor(
        block,
        at,
        set_list.object_local,
        usages,
    ) {
        Some(found) => found,
        None => {
            return None;
        },
    };
    proof {
        assert(views[table as int] == block@[table as int]@);
        lemma_constructor(
            views,
            at as int,
            set_list.object_local,
            usages@,
            Seq::empty(),
            at as int,
        );
    }
    let fields = match find_table_assign(&block[table]) {
        Some((_, fields)) => fields,
        None => {
            return None;
        },
    };
    if set_list.index < 1 || ends_open(fields) || count_unkeyed(fields) != set_list.index - 1 {
        return None;
    }
    if crosses_any(&aliases, defined, &batch_reads(set_list)) {
        return None;
    }
    let used = match find_entry(usages, set_list.object_local.id) {
        Some(count) => *count > 0,
        None => false,
    };
    if !used {
        return None;
    }
    let stays = can_stay(block, table, at, &aliases);
    if !stays {
        let value = match block[table].as_assign() {
            Some(assign) => {
                proof {
                    nodes::assign_node(*assign);
                    assert(assign@.right[0] == assign.right@[0]@);
                }
                &assign.right[0]
            },
            None => {
                return None;
            },
        };
        if !movable(fields, value) || !unobserved(block, table, at, &aliases, defined) {
            return None;
        }
    }
    Some((table, aliases, stays))
}

/// Puts an empty statement in the place of another.
fn clear(block: &mut Vec<Statement>, at: usize)
    requires
        at < old(block)@.len(),
    ensures
        Statement::views(final(block)@) == Statement::views(old(block)@).update(
            at as int,
            StatementView::Empty,
        ),
{
    let empty = Statement::Empty(Empty {  });
    proof {
        nodes::statement_node(empty);
    }
    block.set(at, empty);
    proof {
        assert(Statement::views(block@) =~= Statement::views(old(block)@).update(
            at as int,
            StatementView::Empty,
        ));
    }
}

/// Moves batches of values into the constructors of their tables.
pub fn fold_set_lists(block: Vec<Statement>, usages: &mut FxHashMap<u64, usize>) -> (result: (
    Vec<Statement>,
    usize,
))
    ensures
        ({
            let (after, fewer, count) = batches_folded(
                Statement::views(block@),
                0,
                old(usages)@,
                0,
            );
            &&& Statement::views(result.0@) == after
            &&& result.1 == count
            &&& final(usages)@ == fewer
        }),
{
    let ghost whole = batches_folded(Statement::views(block@), 0, usages@, 0);
    let length: usize = block.len();
    let mut rest = block;
    let mut count: usize = 0;
    let mut at: usize = 0;
    while at < length
        invariant
            count <= at <= length == rest@.len(),
            whole == batches_folded(Statement::views(rest@), at as int, usages@, count as nat),
        decreases length - at,
    {
        let ghost views = Statement::views(rest@);
        let ghost held = usages@;
        proof {
            assert(views.len() == rest@.len());
            assert(views[at as int] == rest@[at as int]@);
            lemma_batch_folded(views, at as int, held);
        }
        if let Some((table, aliases, stays)) = find_batch_constructor(&rest, at, usages) {
            let ghost list = alias_views(aliases@);
            let ghost fields = match table_assign(views[table as int]) {
                Some((_, fields)) => fields,
                None => Seq::empty(),
            };
            proof {
                assert(views[table as int] == rest@[table as int]@);
                nodes::statement_node(rest@[at as int]);
            }
            let copy = rest[at].clone();
            proof {
                nodes::statement_node(copy);
            }
            if let Statement::SetList(set_list) = copy {
                proof {
                    lemma_constructor(
                        views,
                        at as int,
                        set_list.object_local,
                        held,
                        Seq::empty(),
                        at as int,
                    );
                }
                let grown = add_values(
                    &rest[table],
                    set_list.values,
                    set_list.tail,
                    Ghost(fields),
                );
                let ghost put = grown@;
                lower_usage(usages, set_list.object_local);
                let ghost fewer = usages@;
                if stays {
                    rest.set(table, grown);
                    proof {
                        assert(Statement::views(rest@) =~= views.update(table as int, put));
                    }
                    clear(&mut rest, at);
                } else {
                    clear(&mut rest, table);
                    let ghost first = Statement::views(rest@);
                    proof {
                        assert(first.len() == rest@.len());
                    }
                    let mut index: usize = 0;
                    while index < aliases.len()
                        invariant
                            index <= aliases@.len() == list.len(),
                            list == alias_views(aliases@),
                            rest@.len() == length,
                            at < length,
                            are_before(views, list, at as int),
                            Statement::views(rest@) == emptied(first, list, index as int),
                            usages@ == with_fewer_sources(fewer, list, index as int),
                        decreases aliases.len() - index,
                    {
                        let (place, _, source) = aliases[index];
                        proof {
                            assert(list[index as int].0 == place);
                            assert(list[index as int].2 == source);
                        }
                        clear(&mut rest, place);
                        lower_usage(usages, source);
                        proof {
                            assert(Statement::views(rest@).len() == rest@.len());
                        }
                        index += 1;
                    }
                    let ghost cleared = Statement::views(rest@);
                    rest.set(at, grown);
                    proof {
                        assert(Statement::views(rest@) =~= cleared.update(at as int, put));
                    }
                }
                count += 1;
                proof {
                    assert(Statement::views(rest@).len() == rest@.len());
                    assert(batch_folded(views, at as int, held) == Some(
                        (Statement::views(rest@), usages@),
                    ));
                }
            }
        }
        at += 1;
    }
    (rest, count)
}

} // verus!
