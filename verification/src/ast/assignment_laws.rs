//! That assignments read back from how they are written.

use vstd::prelude::*;

use crate::ast::layout::Layout;
use crate::ast::meaning::{Machine, World};
use crate::ast::meaning_laws;
use crate::ast::nodes::{AssignView, LValueView, RValueView, StatementView};
use crate::ast::reading_laws;
use crate::ast::reduction_laws;

verus! {

/// Whether a reader of expressions knows where one ends that stands in a list.
pub open spec fn knows_item(reader: spec_fn(Seq<char>) -> nat, written: Seq<char>) -> bool {
    forall|rest: Seq<char>|
        rest.len() == 0 || reading_laws::past(rest, ", "@) is Some || reading_laws::past(
            rest,
            " = "@,
        ) is Some ==> #[trigger] reader(written + rest) == written.len()
}

/// The texts of a list with commas between, and what follows it.
pub open spec fn items(reader: spec_fn(Seq<char>) -> nat, text: Seq<char>) -> (
    Seq<Seq<char>>,
    Seq<char>,
)
    decreases text.len(),
{
    let count = reader(text) as int;
    let first = text.take(count);
    let rest = text.skip(count);
    match reading_laws::past(rest, ", "@) {
        Some(more) => if more.len() < text.len() {
            let (others, last) = items(reader, more);
            (seq![first] + others, last)
        } else {
            (seq![first], rest)
        },
        None => (seq![first], rest),
    }
}

/// The targets and the values of an assignment, as they are written.
pub open spec fn assignment(reader: spec_fn(Seq<char>) -> nat, text: Seq<char>) -> Option<
    (Seq<Seq<char>>, Seq<Seq<char>>),
> {
    let (targets, rest) = items(reader, text);
    match reading_laws::past(rest, " = "@) {
        Some(given) => {
            let (values, last) = items(reader, given);
            if last.len() == 0 {
                Some((targets, values))
            } else {
                None
            }
        },
        None => None,
    }
}

proof fn lemma_items(
    reader: spec_fn(Seq<char>) -> nat,
    written: Seq<Seq<char>>,
    from: int,
    rest: Seq<char>,
)
    requires
        0 <= from < written.len(),
        forall|i: int| 0 <= i < written.len() ==> knows_item(reader, #[trigger] written[i]),
        rest.len() == 0 || (reading_laws::past(rest, " = "@) is Some && reading_laws::past(
            rest,
            ", "@,
        ) is None),
    ensures
        items(reader, reading_laws::listed(written, from) + rest) == (written.skip(from), rest),
    decreases written.len() - from,
{
    reveal_strlit(", ");
    let text = reading_laws::listed(written, from) + rest;
    assert(knows_item(reader, written[from]));
    if from + 1 == written.len() {
        reading_laws::lemma_split(written[from], rest);
        assert(written.skip(from) =~= seq![written[from]]);
    } else {
        let more = reading_laws::listed(written, from + 1) + rest;
        let behind = ", "@ + more;
        assert(text =~= written[from] + behind);
        reading_laws::lemma_past(", "@, more);
        reading_laws::lemma_split(written[from], behind);
        lemma_items(reader, written, from + 1, rest);
        assert(seq![written[from]] + written.skip(from + 1) =~= written.skip(from));
    }
}

/// The texts of targets.
pub open spec fn target_texts(layout: Layout, targets: Seq<LValueView>) -> Seq<Seq<char>> {
    Seq::new(targets.len(), |i: int| layout.target(targets[i]))
}

/// The texts of the values of `count` targets: the last is in parentheses where
/// it gives one value and could be read as giving more.
pub open spec fn value_texts(layout: Layout, values: Seq<RValueView>, count: int) -> Seq<
    Seq<char>,
> {
    Seq::new(
        values.len(),
        |i: int|
            if values[i] is Select && i + 1 == values.len() && i + 1 < count {
                "("@ + layout.value(values[i]) + ")"@
            } else {
                layout.value(values[i])
            },
    )
}

proof fn lemma_targets_listed(layout: Layout, targets: Seq<LValueView>, from: int)
    requires
        0 <= from < targets.len(),
    ensures
        layout.targets_from(targets, from) == (if from > 0 {
            ", "@
        } else {
            Seq::empty()
        }) + reading_laws::listed(target_texts(layout, targets), from),
    decreases targets.len() - from,
{
    let written = target_texts(layout, targets);
    let comma = if from > 0 {
        ", "@
    } else {
        Seq::empty()
    };
    let rest = layout.targets_from(targets, from + 1);
    if from + 1 < targets.len() {
        lemma_targets_listed(layout, targets, from + 1);
    } else {
        assert(rest =~= Seq::<char>::empty());
    }
    assert(comma + written[from] + rest =~= comma + reading_laws::listed(written, from));
}

proof fn lemma_values_listed(layout: Layout, values: Seq<RValueView>, from: int, count: int)
    requires
        0 <= from < values.len(),
    ensures
        layout.assigned_from(values, from, count) == (if from > 0 {
            ", "@
        } else {
            Seq::empty()
        }) + reading_laws::listed(value_texts(layout, values, count), from),
    decreases values.len() - from,
{
    let written = value_texts(layout, values, count);
    let comma = if from > 0 {
        ", "@
    } else {
        Seq::empty()
    };
    let rest = layout.assigned_from(values, from + 1, count);
    let group = from + 1 == values.len() && count - from > 1 && values[from] is Select;
    assert(layout.grouped(values[from], group) == written[from]);
    assert(layout.assigned_from(values, from, count) == comma + written[from] + rest);
    if from + 1 < values.len() {
        lemma_values_listed(layout, values, from + 1, count);
    } else {
        assert(rest =~= Seq::<char>::empty());
    }
    assert(comma + written[from] + rest =~= comma + reading_laws::listed(written, from));
}

/// An assignment reads back as itself: its targets and its values, each in its
/// place.
pub proof fn assignments_read_back(
    layout: Layout,
    reader: spec_fn(Seq<char>) -> nat,
    assign: AssignView,
)
    requires
        assign.left.len() > 0,
        assign.right.len() > 0,
        !assign.prefix,
        !assign.parallel,
        assign.named_closure() is None,
        assign.update() is None,
        forall|i: int|
            0 <= i < assign.left.len() ==> knows_item(
                reader,
                layout.target(#[trigger] assign.left[i]),
            ),
        forall|i: int|
            0 <= i < assign.right.len() ==> knows_item(
                reader,
                #[trigger] value_texts(layout, assign.right, assign.left.len() as int)[i],
            ),
    ensures
        assignment(reader, layout.statement(StatementView::Assign(assign))) == Some(
            (
                target_texts(layout, assign.left),
                value_texts(layout, assign.right, assign.left.len() as int),
            ),
        ),
{
    reveal_strlit(" = ");
    reveal_strlit(", ");
    let targets = target_texts(layout, assign.left);
    let values = value_texts(layout, assign.right, assign.left.len() as int);
    lemma_targets_listed(layout, assign.left, 0);
    lemma_values_listed(layout, assign.right, 0, assign.left.len() as int);
    let a = reading_laws::listed(targets, 0);
    let b = reading_laws::listed(values, 0);
    let written = layout.statement(StatementView::Assign(assign));
    let rest = " = "@ + b;
    assert(written == layout.assign(assign));
    assert(layout.assign(assign) == layout.bare_assign(assign));
    assert(layout.bare_assign(assign) == layout.list_assign(assign));
    assert(layout.targets_from(assign.left, 0) =~= a);
    assert(layout.assigned_from(assign.right, 0, assign.left.len() as int) =~= b);
    assert(a + " = "@ + b + Seq::<char>::empty() =~= a + rest);
    reading_laws::lemma_past(" = "@, b);
    reading_laws::lemma_not_past(" = "@, b, ", "@, 0);
    assert forall|i: int| 0 <= i < targets.len() implies knows_item(
        reader,
        #[trigger] targets[i],
    ) by {
        assert(targets[i] == layout.target(assign.left[i]));
    }
    lemma_items(reader, targets, 0, rest);
    lemma_items(reader, values, 0, Seq::empty());
    assert(b + Seq::<char>::empty() =~= b);
    assert(targets.skip(0) =~= targets);
    assert(values.skip(0) =~= values);
}

/// The read of a target.
pub open spec fn read_of(target: LValueView) -> RValueView {
    match target {
        LValueView::Local(local) => RValueView::Local(local),
        LValueView::Global(global) => RValueView::Global(global),
        LValueView::Index(index) => RValueView::Index(index),
    }
}

/// What is written as an update of a target stands for the assignment of the
/// operation on what the target holds, with the operand on its right.
pub proof fn updates_stand_for_assignments(assign: AssignView, m: Machine)
    requires
        assign.update() is Some,
        m.respects_equality(),
    ensures
        ({
            let (operation, operand) = assign.update()->0;
            &&& assign.left.len() == 1
            &&& assign.right.len() == 1
            &&& meaning_laws::means_same(
                RValueView::Binary(
                    Box::new(read_of(assign.left[0])),
                    Box::new(operand),
                    operation,
                ),
                assign.right[0],
                m,
            )
        }),
{
    let (operation, operand) = assign.update()->0;
    let value = assign.right[0];
    let held = read_of(assign.left[0]);
    let operands = seq![held, operand];
    if let RValueView::Binary(left, right, _) = value {
        lemma_stable_read(assign.left[0], *left, m);
        assert(value.children() =~= seq![*left, *right]);
        assert forall|i: int| 0 <= i < operands.len() implies meaning_laws::means_same(
            #[trigger] operands[i],
            value.children()[i],
            m,
        ) by {
            if i == 0 {
                assert(operands[0] == held);
            } else {
                assert(operands[1] == operand);
            }
        }
        let made = RValueView::Binary(Box::new(held), Box::new(operand), operation);
        assert(value.with_children(operands) == made);
        assert forall|world: World| #[trigger]
            made.evaluated(m, world) == value.evaluated(m, world) by {
            meaning_laws::operands_decide(value, operands, m, world);
        }
    }
}

proof fn lemma_stable_read(target: LValueView, read: RValueView, m: Machine)
    requires
        target.is_stable_read(read),
        m.respects_equality(),
    ensures
        meaning_laws::means_same(read_of(target), read, m),
{
    if let LValueView::Index(place) = target {
        if let RValueView::Index(index) = read {
            assert forall|world: World| #[trigger]
                place.left.evaluated(m, world) == index.left.evaluated(m, world) by {
                reduction_laws::equal_expressions_mean_the_same(
                    *place.left,
                    *index.left,
                    m,
                    world,
                );
            }
            assert forall|world: World| #[trigger]
                place.right.evaluated(m, world) == index.right.evaluated(m, world) by {
                reduction_laws::equal_expressions_mean_the_same(
                    *place.right,
                    *index.right,
                    m,
                    world,
                );
            }
            let operands = seq![*place.left, *place.right];
            assert(read.children() =~= seq![*index.left, *index.right]);
            assert forall|i: int| 0 <= i < operands.len() implies meaning_laws::means_same(
                #[trigger] operands[i],
                read.children()[i],
                m,
            ) by {
                if i == 0 {
                    assert(operands[0] == *place.left);
                } else {
                    assert(operands[1] == *place.right);
                }
            }
            assert(read.with_children(operands) == read_of(target));
            assert forall|world: World| #[trigger]
                read_of(target).evaluated(m, world) == read.evaluated(m, world) by {
                meaning_laws::operands_decide(read, operands, m, world);
            }
        }
    }
}

} // verus!
