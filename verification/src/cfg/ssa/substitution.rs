//! Putting the value of a local that is read once in the place of the read.

use vstd::prelude::*;

use rustc_hash::{FxHashMap, FxHashSet};

use crate::ast::alias_elimination::has_local;
use crate::ast::local::RcLocal;
use crate::ast::local_rw::LocalRw;
use crate::ast::nodes::{
    Assign, AssignView, Binary, BinaryOperation, Block, Empty, GenericForInit, LValue, LValueView,
    RValue, RValueView, Statement, StatementView,
};
use crate::ast::{model, nodes, shape_laws};
use crate::collections::{empty_set, find_entry, has_member, insert_member};

verus! {

broadcast use nodes::group_views;

/// What came of looking for a read.
#[verifier::ext_equal]
pub enum Attempt<V> {
    /// The read was found, and this is what it gives.
    Found(V),
    /// An expression that can be observed came before it.
    Stopped,
    /// There is no read.
    Missing,
}

/// The comparison that holds of two values when another holds of them in the
/// other order.
pub open spec fn mirrored(operation: BinaryOperation) -> BinaryOperation {
    match operation {
        BinaryOperation::LessThanOrEqual => BinaryOperation::GreaterThanOrEqual,
        BinaryOperation::GreaterThanOrEqual => BinaryOperation::LessThanOrEqual,
        BinaryOperation::LessThan => BinaryOperation::GreaterThan,
        BinaryOperation::GreaterThan => BinaryOperation::LessThan,
        other => other,
    }
}

fn mirror(operation: BinaryOperation) -> (mirror: BinaryOperation)
    ensures
        mirror == mirrored(operation),
{
    match operation {
        BinaryOperation::LessThanOrEqual => BinaryOperation::GreaterThanOrEqual,
        BinaryOperation::GreaterThanOrEqual => BinaryOperation::LessThanOrEqual,
        BinaryOperation::LessThan => BinaryOperation::GreaterThan,
        BinaryOperation::GreaterThan => BinaryOperation::LessThan,
        other => other,
    }
}

/// Comparing in the other order twice is comparing in the order given.
pub proof fn mirroring_twice(operation: BinaryOperation)
    ensures
        mirrored(mirrored(operation)) == operation,
{
}

impl RValueView {
    /// Whether this compares what has effects with a read, so that the value
    /// read can be computed first by comparing in the other order.
    pub open spec fn swaps(self, read: RcLocal) -> bool {
        match self {
            RValueView::Binary(left, right, operation) => operation.compares()
                && left.has_side_effects() && *right == RValueView::Local(read),
            _ => false,
        }
    }

    /// This expression with a value in place of the first read of a local. A
    /// value that can be observed is not moved behind another such.
    pub open spec fn taking(self, read: RcLocal, value: RValueView, effectful: bool) -> Attempt<
        RValueView,
    >
        decreases self.size(), 0int,
    {
        proof {
            model::lemma_children_smaller(self);
        }
        if self.swaps(read) {
            match self {
                RValueView::Binary(left, right, operation) => Attempt::Found(
                    RValueView::Binary(Box::new(value), left, mirrored(operation)),
                ),
                _ => Attempt::Missing,
            }
        } else {
            match Self::taking_from(self.children(), 0, read, value, effectful) {
                Attempt::Found(operands) => Attempt::Found(self.with_children(operands)),
                Attempt::Stopped => Attempt::Stopped,
                Attempt::Missing => if self == RValueView::Local(read) {
                    Attempt::Found(value)
                } else if effectful && self.has_side_effects() {
                    Attempt::Stopped
                } else {
                    Attempt::Missing
                },
            }
        }
    }

    /// The expressions from position `from` on with a value in place of the
    /// first read of a local.
    pub open spec fn taking_from(
        values: Seq<RValueView>,
        from: int,
        read: RcLocal,
        value: RValueView,
        effectful: bool,
    ) -> Attempt<Seq<RValueView>>
        decreases Self::sizes_from(values, from), 1int,
    {
        proof {
            model::lemma_sizes_step(values, from);
        }
        if 0 <= from < values.len() {
            match values[from].taking(read, value, effectful) {
                Attempt::Found(first) => Attempt::Found(values.update(from, first)),
                Attempt::Stopped => Attempt::Stopped,
                Attempt::Missing => Self::taking_from(values, from + 1, read, value, effectful),
            }
        } else {
            Attempt::Missing
        }
    }
}

impl StatementView {
    /// This statement with its values reduced.
    pub open spec fn simplified(self) -> StatementView {
        let roots = self.roots();
        let first = roots.len() - self.rvalues().len();
        self.with_roots(
            Seq::new(
                roots.len(),
                |i: int|
                    if i < first {
                        roots[i]
                    } else {
                        roots[i].reduced()
                    },
            ),
        )
    }

    /// This statement with a value in place of the first read of a local, where
    /// the value can be put there.
    pub open spec fn taking(self, read: RcLocal, value: RValueView, effectful: bool) -> Option<
        StatementView,
    > {
        match RValueView::taking_from(self.roots(), 0, read, value, effectful) {
            Attempt::Found(roots) => Some(self.with_roots(roots).simplified()),
            _ => None,
        }
    }
}

fn take_in_value(value: RValue, read: RcLocal, put: &RValue, effectful: bool) -> (result: (
    Option<bool>,
    RValue,
))
    ensures
        match value@.taking(read, put@, effectful) {
            Attempt::Found(after) => result.0 == Some(true) && result.1@ == after,
            Attempt::Stopped => result.0 == Some(false) && result.1@ == value@,
            Attempt::Missing => result.0 is None && result.1@ == value@,
        },
    decreases value@.size(), 0int,
{
    let ghost whole = value@;
    proof {
        nodes::rvalue_node(value);
        model::lemma_children_smaller(whole);
        shape_laws::same_operands(whole);
    }
    let mut swaps = false;
    if let RValue::Binary(binary) = &value {
        swaps = binary.operation.is_comparator() && binary.left.has_side_effects()
            && binary.right.as_local() == Some(read);
    }
    if swaps {
        match value {
            RValue::Binary(binary) => {
                let swapped = RValue::Binary(
                    Binary {
                        left: Box::new(put.clone()),
                        right: binary.left,
                        operation: mirror(binary.operation),
                    },
                );
                proof {
                    nodes::rvalue_node(swapped);
                }
                return (Some(true), swapped);
            },
            other => {
                return (None, other);
            },
        }
    }
    let effects = value.has_side_effects();
    let named = value.as_local() == Some(read);
    let (shell, operands) = value.decompose();
    let (found, operands) = take_in_values(operands, read, put, effectful);
    proof {
        assert(operands@.len() == RValue::views(operands@).len());
        assert(whole.takes(operands@.len() as int));
        assert(shell@.takes(operands@.len() as int));
    }
    let ghost given = RValue::views(operands@);
    let value = shell.compose(operands);
    proof {
        assert(value@ == whole.with_children(given));
    }
    if found.is_some() {
        return (found, value);
    }
    if named {
        return (Some(true), put.clone());
    }
    if effectful && effects {
        return (Some(false), value);
    }
    (None, value)
}

fn take_in_values(given: Vec<RValue>, read: RcLocal, put: &RValue, effectful: bool) -> (result: (
    Option<bool>,
    Vec<RValue>,
))
    ensures
        match RValueView::taking_from(RValue::views(given@), 0, read, put@, effectful) {
            Attempt::Found(after) => result.0 == Some(true) && RValue::views(result.1@) == after,
            Attempt::Stopped => result.0 == Some(false) && RValue::views(result.1@)
                == RValue::views(given@),
            Attempt::Missing => result.0 is None && RValue::views(result.1@) == RValue::views(
                given@,
            ),
        },
        result.1@.len() == given@.len(),
    decreases RValueView::sizes_from(RValue::views(given@), 0), 1int,
{
    let ghost views = RValue::views(given@);
    let ghost whole = RValueView::taking_from(views, 0, read, put@, effectful);
    let mut values = given;
    let mut index: usize = 0;
    while index < values.len()
        invariant
            index <= values@.len() == views.len(),
            views == RValue::views(given@),
            RValue::views(values@) == views,
            whole == RValueView::taking_from(views, 0, read, put@, effectful),
            whole == RValueView::taking_from(views, index as int, read, put@, effectful),
        decreases values.len() - index,
    {
        proof {
            model::lemma_sizes_member(views, 0, index as int);
            assert(views[index as int] == values@[index as int]@);
        }
        let value = values.remove(index);
        let (found, value) = take_in_value(value, read, put, effectful);
        let ghost after = value@;
        values.insert(index, value);
        proof {
            assert(RValue::views(values@) =~= views.update(index as int, after));
            if found != Some(true) {
                assert(views.update(index as int, after) =~= views);
            }
        }
        if found.is_some() {
            return (found, values);
        }
        index += 1;
    }
    (None, values)
}

/// Reduces the values of a statement.
fn simplify(statement: Statement) -> (simple: Statement)
    ensures
        simple@ == statement@.simplified(),
{
    let ghost whole = statement@;
    let last: usize = statement.rvalues().len();
    let (shell, roots, blocks) = statement.decompose();
    let ghost views = RValue::views(roots@);
    let count: usize = roots.len();
    proof {
        assert(views.len() == count);
        lemma_rvalues_among_roots(whole);
    }
    let first: usize = count - last;
    let mut rest = roots;
    let mut done: Vec<RValue> = Vec::new();
    let mut index: usize = 0;
    while index < count
        invariant
            index <= count == views.len(),
            rest@.len() == count - index,
            RValue::views(rest@) =~= views.skip(index as int),
            done@.len() == index,
            forall|i: int|
                0 <= i < index ==> #[trigger] RValue::views(done@)[i] == (if i < first {
                    views[i]
                } else {
                    views[i].reduced()
                }),
        decreases count - index,
    {
        let ghost before = RValue::views(rest@);
        let ghost held = RValue::views(done@);
        let value = rest.remove(0);
        proof {
            assert(before[0] == views[index as int]);
            assert(RValue::views(rest@) =~= before.skip(1));
            assert(before.skip(1) =~= views.skip(index + 1));
        }
        let value = if index < first { value } else { value.reduce() };
        let ghost put = value@;
        done.push(value);
        proof {
            assert(RValue::views(done@) =~= held.push(put));
        }
        index += 1;
    }
    let ghost given = RValue::views(done@);
    proof {
        assert(given =~= Seq::new(
            views.len(),
            |i: int|
                if i < views.len() - whole.rvalues().len() {
                    views[i]
                } else {
                    views[i].reduced()
                },
        ));
        assert(done@.len() == given.len());
        assert(whole.takes(done@.len() as int));
        assert(blocks@.len() == Block::views(blocks@).len());
        shape_laws::given_roots(whole, given);
        shape_laws::same_blocks(whole.with_roots(given));
    }
    shell.compose(done, blocks)
}

proof fn lemma_rvalues_among_roots(statement: StatementView)
    ensures
        statement.rvalues().len() <= statement.roots().len(),
{
}

/// Puts a value in the place of a read of a statement, where it can be.
fn take_in(statement: &Statement, read: RcLocal, put: &RValue, effectful: bool) -> (taken: Option<
    Statement,
>)
    ensures
        match taken {
            Some(taken) => statement@.taking(read, put@, effectful) == Some(taken@),
            None => statement@.taking(read, put@, effectful) is None,
        },
{
    let ghost whole = statement@;
    let (shell, roots, blocks) = statement.clone().decompose();
    let (found, roots) = take_in_values(roots, read, put, effectful);
    if found != Some(true) {
        return None;
    }
    let ghost given = RValue::views(roots@);
    proof {
        assert(roots@.len() == given.len());
        assert(whole.takes(roots@.len() as int));
        assert(blocks@.len() == Block::views(blocks@).len());
        shape_laws::given_roots(whole, given);
        shape_laws::same_blocks(whole.with_roots(given));
    }
    Some(simplify(shell.compose(roots, blocks)))
}

/// What inlining goes by: how often each local is read, which locals come to be
/// one, and which are held by reference.
pub struct InlineContext {
    pub usages: Map<u64, usize>,
    pub groups: Map<u64, usize>,
    pub upvalues: Set<u64>,
}

impl InlineContext {
    /// Whether a local is read once and only here.
    pub open spec fn is_single(self, local: RcLocal) -> bool {
        &&& self.usages.dom().contains(local.id)
        &&& self.usages[local.id] == 1
        &&& !self.upvalues.contains(local.id)
    }

    /// The locals from position `from` on that are read once.
    pub open spec fn singles_from(self, locals: Seq<RcLocal>, from: int) -> Seq<RcLocal>
        decreases locals.len() - from,
    {
        if 0 <= from < locals.len() {
            let rest = self.singles_from(locals, from + 1);
            if self.is_single(locals[from]) {
                seq![locals[from]] + rest
            } else {
                rest
            }
        } else {
            Seq::empty()
        }
    }

    /// Whether one of some locals is held by reference.
    pub open spec fn holds_any(self, locals: Seq<RcLocal>) -> bool {
        exists|i: int| 0 <= i < locals.len() && self.upvalues.contains((#[trigger] locals[i]).id)
    }

    /// Whether one of some locals is in one of some groups.
    pub open spec fn meets(self, locals: Seq<RcLocal>, written: Set<usize>) -> bool {
        exists|i: int|
            0 <= i < locals.len() && self.groups.dom().contains((#[trigger] locals[i]).id)
                && written.contains(self.groups[locals[i].id])
    }

    /// The groups with those of some locals.
    pub open spec fn with_groups(self, written: Set<usize>, locals: Seq<RcLocal>) -> Set<usize> {
        Set::new(
            |group: usize|
                written.contains(group) || exists|i: int|
                    0 <= i < locals.len() && self.groups.dom().contains((#[trigger] locals[i]).id)
                        && self.groups[locals[i].id] == group,
        )
    }

    /// Whether moving a value can be observed.
    pub open spec fn is_effectful(self, value: RValueView) -> bool {
        value.has_side_effects() || self.holds_any(value.reads())
    }
}

/// The value of an assignment of one.
pub open spec fn sole_value(statement: StatementView) -> Option<(Seq<LValueView>, RValueView)> {
    match statement {
        StatementView::Assign(assign) => if assign.right.len() == 1 {
            Some((assign.left, assign.right[0]))
        } else {
            None
        },
        _ => None,
    }
}

/// The local that a list of targets is.
pub open spec fn sole_local(targets: Seq<LValueView>) -> Option<RcLocal> {
    if targets.len() == 1 {
        match targets[0] {
            LValueView::Local(local) => Some(local),
            _ => None,
        }
    } else {
        None
    }
}

/// Where the locals that a list of values ends in start.
pub open spec fn trailing_locals(values: Seq<RValueView>) -> int
    decreases values.len(),
{
    if values.len() > 0 && values.last() is Local {
        trailing_locals(values.drop_last())
    } else {
        values.len() as int
    }
}

/// The start of a generic loop with a value in place of the locals that it ends
/// in, where these are the targets of the value and each is still to be
/// replaced.
pub open spec fn loop_taking(
    statement: StatementView,
    targets: Seq<LValueView>,
    value: RValueView,
    live: Seq<RcLocal>,
    effectful: bool,
) -> Option<StatementView> {
    match statement {
        StatementView::GenericForInit(assign) => {
            let start = trailing_locals(assign.right);
            if assign.right.len() - start == targets.len() && (forall|i: int|
                0 <= i < targets.len() ==> is_live_target(
                    #[trigger] targets[i],
                    assign.right[start + i],
                    live,
                )) && !(effectful && RValueView::effects_from(assign.right.take(start), 0)) {
                Some(
                    StatementView::GenericForInit(
                        AssignView { right: assign.right.take(start).push(value), ..assign },
                    ),
                )
            } else {
                None
            }
        },
        _ => None,
    }
}

/// Whether a target is a local that is read by a value and is still to be
/// replaced.
pub open spec fn is_live_target(target: LValueView, value: RValueView, live: Seq<RcLocal>) -> bool {
    match target {
        LValueView::Local(local) => value == RValueView::Local(local) && live.contains(local),
        _ => false,
    }
}

/// A list without the first occurrence of a local.
pub open spec fn without(live: Seq<RcLocal>, local: RcLocal) -> Seq<RcLocal> {
    if live.contains(local) {
        live.remove(live.index_of_first(local)->0)
    } else {
        live
    }
}

/// A list without the first occurrences of the local targets before `count`.
pub open spec fn without_targets(
    live: Seq<RcLocal>,
    targets: Seq<LValueView>,
    count: int,
) -> Seq<RcLocal>
    decreases count,
{
    if 0 < count <= targets.len() {
        let fewer = without_targets(live, targets, count - 1);
        match targets[count - 1] {
            LValueView::Local(local) => without(fewer, local),
            _ => fewer,
        }
    } else {
        live
    }
}

/// A place found to inline from: the statement that assigns, the statement that
/// takes the value, and the locals that are still to be replaced in it.
#[verifier::ext_equal]
pub struct Spot {
    pub from: int,
    pub after: StatementView,
    pub live: Seq<RcLocal>,
}

/// The statement before `before` that the statement at `at` can take a value
/// from. `written` are the groups written between, and `calm` tells whether
/// nothing that can be observed is.
pub open spec fn spot_before(
    block: Seq<StatementView>,
    at: int,
    before: int,
    live: Seq<RcLocal>,
    written: Set<usize>,
    calm: bool,
    context: InlineContext,
) -> Option<Spot>
    decreases before,
{
    if before <= 0 || before > block.len() || live.len() == 0 {
        None
    } else {
        let from = before - 1;
        let statement = block[from];
        let quiet = calm && !context.holds_any(statement.writes());
        if context.meets(statement.reads(), written) {
            spot_before(block, at, from, live, written, quiet, context)
        } else {
            let found = match sole_value(statement) {
                Some((targets, value)) => spot_at(
                    block[at],
                    from,
                    targets,
                    value,
                    live,
                    quiet,
                    context,
                ),
                None => None,
            };
            if found is Some {
                found
            } else {
                spot_before(
                    block,
                    at,
                    from,
                    live,
                    context.with_groups(written, statement.writes()),
                    quiet && !statement.has_side_effects(),
                    context,
                )
            }
        }
    }
}

/// What a statement takes from an assignment of one value.
pub open spec fn spot_at(
    taker: StatementView,
    from: int,
    targets: Seq<LValueView>,
    value: RValueView,
    live: Seq<RcLocal>,
    quiet: bool,
    context: InlineContext,
) -> Option<Spot> {
    let effectful = context.is_effectful(value);
    let single = sole_local(targets);
    if effectful && !quiet {
        None
    } else if single is Some && live.contains(single->0) {
        match taker.taking(single->0, value, effectful) {
            Some(after) => Some(Spot { from, after, live: without(live, single->0) }),
            None => None,
        }
    } else {
        match loop_taking(taker, targets, value, live, effectful) {
            Some(after) => Some(
                Spot { from, after, live: without_targets(live, targets, targets.len() as int) },
            ),
            None => None,
        }
    }
}

/// How much is left to do with a statement: an assignment can be made a call or
/// taken away, and any other can be taken away.
pub open spec fn weight(statement: StatementView) -> nat {
    match statement {
        StatementView::Assign(_) => 2,
        StatementView::Empty => 0,
        _ => 1,
    }
}

/// How much is left to do with the statements from position `from` on.
pub open spec fn weight_from(block: Seq<StatementView>, from: int) -> nat
    decreases block.len() - from,
{
    if 0 <= from < block.len() {
        weight(block[from]) + weight_from(block, from + 1)
    } else {
        0
    }
}

pub proof fn lemma_weight_update(
    block: Seq<StatementView>,
    from: int,
    at: int,
    statement: StatementView,
)
    requires
        0 <= from <= at < block.len(),
    ensures
        weight_from(block.update(at, statement), from) + weight(block[at]) == weight_from(
            block,
            from,
        ) + weight(statement),
    decreases at - from,
{
    let after = block.update(at, statement);
    if from < at {
        lemma_weight_update(block, from + 1, at, statement);
    } else {
        lemma_weight_same(block, after, from + 1);
    }
}

pub proof fn lemma_weight_same(left: Seq<StatementView>, right: Seq<StatementView>, from: int)
    requires
        left.len() == right.len(),
        0 <= from,
        forall|i: int| from <= i < left.len() ==> left[i] == right[i],
    ensures
        weight_from(left, from) == weight_from(right, from),
    decreases left.len() - from,
{
    if from < left.len() {
        lemma_weight_same(left, right, from + 1);
    }
}

/// Other values leave a statement's weight as it is.
pub proof fn lemma_weight_roots(statement: StatementView, roots: Seq<RValueView>)
    ensures
        weight(statement.with_roots(roots)) == weight(statement),
        statement is Empty ==> statement.roots().len() == 0,
{
}

proof fn lemma_spot_at(
    taker: StatementView,
    from: int,
    targets: Seq<LValueView>,
    value: RValueView,
    live: Seq<RcLocal>,
    quiet: bool,
    context: InlineContext,
)
    ensures
        match spot_at(taker, from, targets, value, live, quiet, context) {
            Some(spot) => spot.from == from && weight(spot.after) == weight(taker),
            None => true,
        },
{
    let effectful = context.is_effectful(value);
    let single = sole_local(targets);
    if single is Some {
        match RValueView::taking_from(taker.roots(), 0, single->0, value, effectful) {
            Attempt::Found(roots) => {
                lemma_weight_roots(taker, roots);
                let with = taker.with_roots(roots);
                let all = with.roots();
                let first = all.len() - with.rvalues().len();
                lemma_weight_roots(
                    with,
                    Seq::new(
                        all.len(),
                        |i: int|
                            if i < first {
                                all[i]
                            } else {
                                all[i].reduced()
                            },
                    ),
                );
            },
            _ => {},
        }
    }
}

/// What is found to inline from is an assignment before.
pub proof fn lemma_spot_before(
    block: Seq<StatementView>,
    at: int,
    before: int,
    live: Seq<RcLocal>,
    written: Set<usize>,
    calm: bool,
    context: InlineContext,
)
    ensures
        match spot_before(block, at, before, live, written, calm, context) {
            Some(spot) => 0 <= spot.from < before <= block.len() && block[spot.from] is Assign
                && weight(spot.after) == weight(block[at]),
            None => true,
        },
    decreases before,
{
    if before > 0 && before <= block.len() && live.len() > 0 {
        let from = before - 1;
        let statement = block[from];
        let quiet = calm && !context.holds_any(statement.writes());
        if context.meets(statement.reads(), written) {
            lemma_spot_before(block, at, from, live, written, quiet, context);
        } else {
            match sole_value(statement) {
                Some((targets, value)) => lemma_spot_at(
                    block[at],
                    from,
                    targets,
                    value,
                    live,
                    quiet,
                    context,
                ),
                None => {},
            }
            lemma_spot_before(
                block,
                at,
                from,
                live,
                context.with_groups(written, statement.writes()),
                quiet && !statement.has_side_effects(),
                context,
            );
        }
    }
}

/// A block with a statement's values taken from the statements before, as far
/// as that can be; and whether any was.
pub open spec fn inlined_into(
    block: Seq<StatementView>,
    at: int,
    live: Seq<RcLocal>,
    context: InlineContext,
) -> (Seq<StatementView>, bool)
    decreases weight_from(block, 0),
{
    if 0 <= at < block.len() {
        proof {
            lemma_taken_lighter(block, at, live, context);
        }
        match spot_before(block, at, at, live, Set::empty(), true, context) {
            Some(spot) => (
                inlined_into(taken(block, at, spot), at, spot.live, context).0,
                true,
            ),
            None => (block, false),
        }
    } else {
        (block, false)
    }
}

/// A block with a statement that took a value, and without the assignment it
/// took it from.
pub open spec fn taken(block: Seq<StatementView>, at: int, spot: Spot) -> Seq<StatementView> {
    block.update(at, spot.after).update(spot.from, StatementView::Empty)
}

pub proof fn lemma_taken_lighter(
    block: Seq<StatementView>,
    at: int,
    live: Seq<RcLocal>,
    context: InlineContext,
)
    requires
        0 <= at < block.len(),
    ensures
        match spot_before(block, at, at, live, Set::empty(), true, context) {
            Some(spot) => 0 <= spot.from < at && taken(block, at, spot).len() == block.len()
                && weight_from(taken(block, at, spot), 0) + 2 == weight_from(block, 0),
            None => true,
        },
{
    lemma_spot_before(block, at, at, live, Set::empty(), true, context);
    match spot_before(block, at, at, live, Set::empty(), true, context) {
        Some(spot) => {
            lemma_weight_update(block, 0, at, spot.after);
            lemma_weight_update(
                block.update(at, spot.after),
                0,
                spot.from,
                StatementView::Empty,
            );
        },
        None => {},
    }
}

/// Inlining into a statement keeps the number of statements and adds no weight.
pub proof fn lemma_inlined_into(
    block: Seq<StatementView>,
    at: int,
    live: Seq<RcLocal>,
    context: InlineContext,
)
    ensures
        inlined_into(block, at, live, context).0.len() == block.len(),
        weight_from(inlined_into(block, at, live, context).0, 0) <= weight_from(block, 0),
    decreases weight_from(block, 0),
{
    if 0 <= at < block.len() {
        lemma_taken_lighter(block, at, live, context);
        match spot_before(block, at, at, live, Set::empty(), true, context) {
            Some(spot) => lemma_inlined_into(taken(block, at, spot), at, spot.live, context),
            None => {},
        }
    }
}

/// A block with the values of the statements from position `at` on taken from
/// those before them.
pub open spec fn inlined_from(
    block: Seq<StatementView>,
    at: int,
    context: InlineContext,
    changed: bool,
) -> (Seq<StatementView>, bool)
    decreases block.len() - at,
{
    if 0 <= at < block.len() {
        let live = context.singles_from(block[at].reads(), 0);
        let (next, any) = inlined_into(block, at, live, context);
        proof {
            lemma_inlined_into(block, at, live, context);
        }
        inlined_from(next, at + 1, context, changed || any)
    } else {
        (block, changed)
    }
}

pub proof fn lemma_inlined_from(
    block: Seq<StatementView>,
    at: int,
    context: InlineContext,
    changed: bool,
)
    ensures
        inlined_from(block, at, context, changed).0.len() == block.len(),
        weight_from(inlined_from(block, at, context, changed).0, 0) <= weight_from(block, 0),
    decreases block.len() - at,
{
    if 0 <= at < block.len() {
        let live = context.singles_from(block[at].reads(), 0);
        let (next, any) = inlined_into(block, at, live, context);
        lemma_inlined_into(block, at, live, context);
        lemma_inlined_from(next, at + 1, context, changed || any);
    }
}

/// The statement before `before` that an argument can take a value from: one
/// that computes nothing that can be observed, since block parameters are
/// assigned in parallel. Gives the statement, the argument and the locals that
/// are still to be replaced in it.
pub open spec fn argument_spot(
    block: Seq<StatementView>,
    before: int,
    argument: RValueView,
    live: Seq<RcLocal>,
    written: Set<usize>,
    context: InlineContext,
) -> Option<(int, RValueView, Seq<RcLocal>)>
    decreases before,
{
    if before <= 0 || before > block.len() || live.len() == 0 {
        None
    } else {
        let from = before - 1;
        let statement = block[from];
        if context.holds_any(statement.writes()) {
            None
        } else if context.meets(statement.reads(), written) {
            argument_spot(block, from, argument, live, written, context)
        } else {
            match argument_taking(statement, argument, live, context) {
                Some((after, rest)) => Some((from, after, rest)),
                None => argument_spot(
                    block,
                    from,
                    argument,
                    live,
                    context.with_groups(written, statement.writes()),
                    context,
                ),
            }
        }
    }
}

/// What an argument takes from a statement.
pub open spec fn argument_taking(
    statement: StatementView,
    argument: RValueView,
    live: Seq<RcLocal>,
    context: InlineContext,
) -> Option<(RValueView, Seq<RcLocal>)> {
    match sole_value(statement) {
        Some((targets, value)) => {
            let single = sole_local(targets);
            if !context.is_effectful(value) && single is Some && live.contains(single->0) {
                match argument.taking(single->0, value, false) {
                    Attempt::Found(after) => Some((after, without(live, single->0))),
                    _ => None,
                }
            } else {
                None
            }
        },
        None => None,
    }
}

/// What is found for an argument is an assignment.
pub proof fn lemma_argument_spot(
    block: Seq<StatementView>,
    before: int,
    argument: RValueView,
    live: Seq<RcLocal>,
    written: Set<usize>,
    context: InlineContext,
)
    ensures
        match argument_spot(block, before, argument, live, written, context) {
            Some((from, _, _)) => 0 <= from < before <= block.len() && block[from] is Assign
                && weight_from(block.update(from, StatementView::Empty), 0) + 2 == weight_from(
                block,
                0,
            ),
            None => true,
        },
    decreases before,
{
    if before > 0 && before <= block.len() && live.len() > 0 {
        let from = before - 1;
        let statement = block[from];
        lemma_weight_update(block, 0, from, StatementView::Empty);
        lemma_argument_spot(block, from, argument, live, written, context);
        lemma_argument_spot(
            block,
            from,
            argument,
            live,
            context.with_groups(written, statement.writes()),
            context,
        );
    }
}

/// A block and an argument of an edge that leaves it with the argument's values
/// taken from the block.
pub open spec fn argument_inlined(
    block: Seq<StatementView>,
    argument: RValueView,
    live: Seq<RcLocal>,
    context: InlineContext,
) -> (Seq<StatementView>, RValueView, bool)
    decreases weight_from(block, 0),
{
    proof {
        lemma_argument_spot(
            block,
            block.len() as int,
            argument,
            live,
            Set::empty(),
            context,
        );
    }
    match argument_spot(block, block.len() as int, argument, live, Set::empty(), context) {
        Some((from, after, rest)) => {
            let (next, done, _) = argument_inlined(
                block.update(from, StatementView::Empty),
                after,
                rest,
                context,
            );
            (next, done, true)
        },
        None => (block, argument, false),
    }
}

pub proof fn lemma_argument_inlined(
    block: Seq<StatementView>,
    argument: RValueView,
    live: Seq<RcLocal>,
    context: InlineContext,
)
    ensures
        argument_inlined(block, argument, live, context).0.len() == block.len(),
        weight_from(argument_inlined(block, argument, live, context).0, 0) <= weight_from(
            block,
            0,
        ),
    decreases weight_from(block, 0),
{
    lemma_argument_spot(block, block.len() as int, argument, live, Set::empty(), context);
    match argument_spot(block, block.len() as int, argument, live, Set::empty(), context) {
        Some((from, after, rest)) => lemma_argument_inlined(
            block.update(from, StatementView::Empty),
            after,
            rest,
            context,
        ),
        None => {},
    }
}

/// A block and the arguments of an edge that leaves it with the values of those
/// from position `at` on taken from the block.
pub open spec fn arguments_inlined(
    block: Seq<StatementView>,
    arguments: Seq<(RcLocal, RValueView)>,
    at: int,
    context: InlineContext,
    changed: bool,
) -> (Seq<StatementView>, Seq<(RcLocal, RValueView)>, bool)
    decreases arguments.len() - at,
{
    if 0 <= at < arguments.len() {
        let live = context.singles_from(arguments[at].1.reads(), 0);
        let (next, value, any) = argument_inlined(block, arguments[at].1, live, context);
        arguments_inlined(
            next,
            arguments.update(at, (arguments[at].0, value)),
            at + 1,
            context,
            changed || any,
        )
    } else {
        (block, arguments, changed)
    }
}

pub proof fn lemma_arguments_inlined(
    block: Seq<StatementView>,
    arguments: Seq<(RcLocal, RValueView)>,
    at: int,
    context: InlineContext,
    changed: bool,
)
    ensures
        weight_from(arguments_inlined(block, arguments, at, context, changed).0, 0)
            <= weight_from(block, 0),
    decreases arguments.len() - at,
{
    if 0 <= at < arguments.len() {
        let live = context.singles_from(arguments[at].1.reads(), 0);
        let (next, value, any) = argument_inlined(block, arguments[at].1, live, context);
        lemma_argument_inlined(block, arguments[at].1, live, context);
        lemma_arguments_inlined(
            next,
            arguments.update(at, (arguments[at].0, value)),
            at + 1,
            context,
            changed || any,
        );
    }
}

/// What inlining goes by.
pub struct Inliner<'a> {
    pub local_to_group: &'a FxHashMap<u64, usize>,
    pub upvalues: FxHashSet<u64>,
    pub usages: FxHashMap<u64, usize>,
}

impl<'a> Inliner<'a> {
    pub open spec fn view(&self) -> InlineContext {
        InlineContext {
            usages: self.usages@,
            groups: self.local_to_group@,
            upvalues: self.upvalues@,
        }
    }

    fn find_singles(&self, locals: &Vec<RcLocal>) -> (singles: Vec<RcLocal>)
        ensures
            singles@ == self@.singles_from(locals@, 0),
    {
        let ghost whole = self@.singles_from(locals@, 0);
        let mut singles: Vec<RcLocal> = Vec::new();
        let mut index: usize = 0;
        while index < locals.len()
            invariant
                index <= locals@.len(),
                singles@ + self@.singles_from(locals@, index as int) =~= whole,
            decreases locals.len() - index,
        {
            let local = locals[index];
            let once = match find_entry(&self.usages, local.id) {
                Some(count) => *count == 1,
                None => false,
            };
            if once && !has_member(&self.upvalues, local.id) {
                singles.push(local);
            }
            index += 1;
        }
        singles
    }

    fn has_upvalue(&self, locals: &Vec<RcLocal>) -> (result: bool)
        ensures
            result == self@.holds_any(locals@),
    {
        let mut index: usize = 0;
        while index < locals.len()
            invariant
                index <= locals@.len(),
                forall|i: int|
                    0 <= i < index ==> !self@.upvalues.contains((#[trigger] locals@[i]).id),
            decreases locals.len() - index,
        {
            if has_member(&self.upvalues, locals[index].id) {
                assert(self@.upvalues.contains(locals@[index as int].id));
                return true;
            }
            index += 1;
        }
        false
    }

    fn meets_groups(&self, locals: &Vec<RcLocal>, written: &FxHashSet<u64>) -> (result: bool)
        ensures
            result == self@.meets(locals@, group_view(written@)),
    {
        let mut index: usize = 0;
        while index < locals.len()
            invariant
                index <= locals@.len(),
                forall|i: int|
                    0 <= i < index && self@.groups.dom().contains((#[trigger] locals@[i]).id)
                        ==> !group_view(written@).contains(self@.groups[locals@[i].id]),
            decreases locals.len() - index,
        {
            if let Some(group) = find_entry(self.local_to_group, locals[index].id) {
                if has_member(written, *group as u64) {
                    proof {
                        assert(self@.groups.dom().contains(locals@[index as int].id));
                        assert(group_view(written@).contains(*group));
                    }
                    return true;
                }
            }
            index += 1;
        }
        false
    }

    fn add_groups(&self, locals: &Vec<RcLocal>, written: &mut FxHashSet<u64>)
        ensures
            group_view(final(written)@) == self@.with_groups(group_view(old(written)@), locals@),
    {
        let ghost start = group_view(written@);
        let mut index: usize = 0;
        proof {
            assert(group_view(written@) =~= self@.with_groups(start, locals@.take(0)));
        }
        while index < locals.len()
            invariant
                index <= locals@.len(),
                group_view(written@) == self@.with_groups(start, locals@.take(index as int)),
            decreases locals.len() - index,
        {
            let ghost less = locals@.take(index as int);
            let ghost more = locals@.take(index + 1);
            let ghost before = group_view(written@);
            let local = locals[index];
            if let Some(group) = find_entry(self.local_to_group, local.id) {
                let fresh = insert_member(written, *group as u64);
            }
            proof {
                let grown = self@.with_groups(start, more);
                assert forall|group: usize| group_view(written@).contains(group)
                    == grown.contains(group) by {
                    assert(before.contains(group) == self@.with_groups(start, less).contains(
                        group,
                    ));
                    if exists|i: int|
                        0 <= i < less.len() && self@.groups.dom().contains((#[trigger] less[i]).id)
                            && self@.groups[less[i].id] == group {
                        let i = choose|i: int|
                            0 <= i < less.len() && self@.groups.dom().contains(
                                (#[trigger] less[i]).id,
                            ) && self@.groups[less[i].id] == group;
                        assert(more[i] == less[i]);
                    }
                    if self@.groups.dom().contains(local.id) && self@.groups[local.id] == group {
                        assert(more[index as int] == local);
                    }
                    if exists|i: int|
                        0 <= i < more.len() && self@.groups.dom().contains((#[trigger] more[i]).id)
                            && self@.groups[more[i].id] == group {
                        let i = choose|i: int|
                            0 <= i < more.len() && self@.groups.dom().contains(
                                (#[trigger] more[i]).id,
                            ) && self@.groups[more[i].id] == group;
                        if i < index {
                            assert(less[i] == more[i]);
                        }
                    }
                }
                assert(group_view(written@) =~= grown);
            }
            index += 1;
        }
        proof {
            assert(locals@.take(locals@.len() as int) =~= locals@);
        }
    }

    fn effectful(&self, value: &RValue) -> (result: bool)
        ensures
            result == self@.is_effectful(value@),
    {
        value.has_side_effects() || self.has_upvalue(&value.values_read())
    }
}

/// Groups by their numbers.
spec fn group_view(groups: Set<u64>) -> Set<usize> {
    Set::new(|group: usize| groups.contains(group as u64))
}

fn remove_first(live: &mut Vec<RcLocal>, local: RcLocal)
    ensures
        final(live)@ == without(old(live)@, local),
{
    let mut index: usize = 0;
    while index < live.len()
        invariant
            index <= live@.len(),
            live@ == old(live)@,
            forall|i: int| 0 <= i < index ==> live@[i] != local,
        decreases live.len() - index,
    {
        if live[index] == local {
            proof {
                assert(live@.contains(local));
                live@.index_of_first_ensures(local);
                let found = live@.index_of_first(local)->0;
                assert(found == index) by {
                    if found < index {
                        assert(live@[found] != local);
                    }
                }
            }
            let removed = live.remove(index);
            return;
        }
        index += 1;
    }
}

fn find_sole_value<'a>(statement: &'a Statement) -> (found: Option<(&'a Vec<LValue>, &'a RValue)>)
    ensures
        match found {
            Some((targets, value)) => sole_value(statement@) == Some(
                (LValue::views(targets@), value@),
            ),
            None => sole_value(statement@) is None,
        },
{
    match statement.as_assign() {
        Some(assign) => {
            proof {
                nodes::assign_node(*assign);
            }
            if assign.right.len() == 1 {
                proof {
                    assert(assign@.right[0] == assign.right@[0]@);
                }
                Some((&assign.left, &assign.right[0]))
            } else {
                None
            }
        },
        None => None,
    }
}

fn find_sole_local(targets: &Vec<LValue>) -> (local: Option<RcLocal>)
    ensures
        local == sole_local(LValue::views(targets@)),
{
    if targets.len() == 1 {
        proof {
            assert(LValue::views(targets@)[0] == targets@[0]@);
        }
        targets[0].as_local()
    } else {
        None
    }
}

proof fn lemma_trailing(values: Seq<RValueView>)
    ensures
        0 <= trailing_locals(values) <= values.len(),
        forall|i: int| trailing_locals(values) <= i < values.len() ==> (#[trigger] values[i] is Local),
        trailing_locals(values) > 0 ==> !(values[trailing_locals(values) - 1] is Local),
    decreases values.len(),
{
    if values.len() > 0 && values.last() is Local {
        let front = values.drop_last();
        lemma_trailing(front);
        assert forall|i: int| trailing_locals(values) <= i < values.len() implies (
        #[trigger] values[i] is Local) by {
            if i < front.len() {
                assert(front[i] is Local);
            }
        }
    }
}

proof fn lemma_trailing_unique(values: Seq<RValueView>, start: int)
    requires
        0 <= start <= values.len(),
        forall|i: int| start <= i < values.len() ==> (#[trigger] values[i] is Local),
        start > 0 ==> !(values[start - 1] is Local),
    ensures
        trailing_locals(values) == start,
{
    lemma_trailing(values);
    let found = trailing_locals(values);
    if found < start {
        assert(values[start - 1] is Local);
    }
    if start < found {
        assert(values[found - 1] is Local);
    }
}

/// Where the locals that a list of values ends in start.
fn find_trailing(values: &Vec<RValue>) -> (start: usize)
    ensures
        start == trailing_locals(RValue::views(values@)),
        start <= values@.len(),
{
    let ghost views = RValue::views(values@);
    let mut start: usize = values.len();
    while start > 0
        invariant
            start <= values@.len() == views.len(),
            views == RValue::views(values@),
            forall|i: int| start <= i < views.len() ==> (#[trigger] views[i] is Local),
        decreases start,
    {
        proof {
            assert(views[start - 1] == values@[start - 1]@);
        }
        if values[start - 1].as_local().is_none() {
            proof {
                lemma_trailing_unique(views, start as int);
            }
            return start;
        }
        start -= 1;
    }
    proof {
        lemma_trailing_unique(views, 0);
    }
    start
}

fn any_effects_before(values: &Vec<RValue>, end: usize) -> (result: bool)
    requires
        end <= values@.len(),
    ensures
        result == RValueView::effects_from(RValue::views(values@).take(end as int), 0),
{
    let ghost views = RValue::views(values@).take(end as int);
    let ghost whole = RValueView::effects_from(views, 0);
    let mut index: usize = 0;
    while index < end
        invariant
            index <= end <= values@.len(),
            views == RValue::views(values@).take(end as int),
            whole == RValueView::effects_from(views, 0),
            whole == RValueView::effects_from(views, index as int),
        decreases end - index,
    {
        proof {
            assert(views[index as int] == values@[index as int]@);
        }
        if values[index].has_side_effects() {
            return true;
        }
        index += 1;
    }
    false
}

fn all_live(targets: &Vec<LValue>, values: &Vec<RValue>, start: usize, live: &Vec<RcLocal>) -> (result:
    bool)
    requires
        start + targets@.len() == values@.len(),
    ensures
        result == forall|i: int|
            0 <= i < targets@.len() ==> is_live_target(
                #[trigger] LValue::views(targets@)[i],
                RValue::views(values@)[start + i],
                live@,
            ),
{
    let ghost left = LValue::views(targets@);
    let ghost right = RValue::views(values@);
    let length: usize = values.len();
    let mut index: usize = 0;
    while index < targets.len()
        invariant
            index <= targets@.len(),
            start + targets@.len() == values@.len() == length,
            left == LValue::views(targets@),
            right == RValue::views(values@),
            forall|i: int|
                0 <= i < index ==> is_live_target(#[trigger] left[i], right[start + i], live@),
        decreases targets.len() - index,
    {
        proof {
            assert(left[index as int] == targets@[index as int]@);
            assert(right[start + index] == values@[start + index]@);
        }
        let held = match (targets[index].as_local(), values[start + index].as_local()) {
            (Some(target), Some(value)) => target == value && has_local(live, target),
            _ => false,
        };
        if !held {
            assert(!is_live_target(left[index as int], right[start + index], live@));
            return false;
        }
        index += 1;
    }
    true
}

/// Puts a value in the place of the locals that the start of a generic loop
/// ends in, where it can be.
fn take_in_loop(
    statement: &Statement,
    targets: &Vec<LValue>,
    value: &RValue,
    live: &Vec<RcLocal>,
    effectful: bool,
) -> (taken: Option<Statement>)
    ensures
        match taken {
            Some(taken) => loop_taking(
                statement@,
                LValue::views(targets@),
                value@,
                live@,
                effectful,
            ) == Some(taken@),
            None => loop_taking(
                statement@,
                LValue::views(targets@),
                value@,
                live@,
                effectful,
            ) is None,
        },
{
    proof {
        nodes::statement_node(*statement);
    }
    match statement {
        Statement::GenericForInit(GenericForInit(assign)) => {
            proof {
                nodes::assign_node(*assign);
            }
            let start = find_trailing(&assign.right);
            if assign.right.len() - start != targets.len() {
                return None;
            }
            if !all_live(targets, &assign.right, start, live) {
                return None;
            }
            if effectful && any_effects_before(&assign.right, start) {
                return None;
            }
            let copy = assign.clone();
            proof {
                nodes::assign_node(copy);
            }
            let mut right = copy.right;
            let ghost views = RValue::views(right@);
            right.truncate(start);
            let put = value.clone();
            right.push(put);
            let changed = Assign {
                left: copy.left,
                right,
                prefix: copy.prefix,
                parallel: copy.parallel,
            };
            let after = Statement::GenericForInit(GenericForInit(changed));
            proof {
                nodes::assign_node(changed);
                nodes::statement_node(after);
                assert(RValue::views(right@) =~= views.take(start as int).push(value@));
            }
            Some(after)
        },
        _ => None,
    }
}

fn remove_targets(live: &mut Vec<RcLocal>, targets: &Vec<LValue>)
    ensures
        final(live)@ == without_targets(old(live)@, LValue::views(targets@), targets@.len() as int),
{
    let ghost views = LValue::views(targets@);
    let mut index: usize = 0;
    while index < targets.len()
        invariant
            index <= targets@.len() == views.len(),
            views == LValue::views(targets@),
            live@ == without_targets(old(live)@, views, index as int),
        decreases targets.len() - index,
    {
        proof {
            assert(views[index as int] == targets@[index as int]@);
        }
        if let Some(local) = targets[index].as_local() {
            remove_first(live, local);
        }
        index += 1;
    }
}

impl<'a> Inliner<'a> {
    fn try_spot(
        &self,
        taker: &Statement,
        targets: &Vec<LValue>,
        value: &RValue,
        live: &mut Vec<RcLocal>,
        quiet: bool,
        Ghost(from): Ghost<int>,
    ) -> (after: Option<Statement>)
        ensures
            match after {
                Some(after) => spot_at(
                    taker@,
                    from,
                    LValue::views(targets@),
                    value@,
                    old(live)@,
                    quiet,
                    self@,
                ) == Some(Spot { from, after: after@, live: final(live)@ }),
                None => spot_at(
                    taker@,
                    from,
                    LValue::views(targets@),
                    value@,
                    old(live)@,
                    quiet,
                    self@,
                ) is None && final(live)@ == old(live)@,
            },
    {
        let effectful = self.effectful(value);
        if effectful && !quiet {
            return None;
        }
        if let Some(local) = find_sole_local(targets) {
            if has_local(live, local) {
                let after = take_in(taker, local, value, effectful);
                if after.is_some() {
                    remove_first(live, local);
                }
                return after;
            }
        }
        let after = take_in_loop(taker, targets, value, live, effectful);
        if after.is_some() {
            remove_targets(live, targets);
        }
        after
    }

    /// Finds a place to inline from.
    fn find_spot(&self, block: &Vec<Statement>, at: usize, live: &mut Vec<RcLocal>) -> (found: Option<
        (usize, Statement),
    >)
        requires
            at < block@.len(),
        ensures
            match found {
                Some((from, after)) => spot_before(
                    Statement::views(block@),
                    at as int,
                    at as int,
                    old(live)@,
                    Set::empty(),
                    true,
                    self@,
                ) == Some(Spot { from: from as int, after: after@, live: final(live)@ }),
                None => spot_before(
                    Statement::views(block@),
                    at as int,
                    at as int,
                    old(live)@,
                    Set::empty(),
                    true,
                    self@,
                ) is None,
            },
    {
        let ghost views = Statement::views(block@);
        let ghost start = live@;
        let ghost whole = spot_before(
            views,
            at as int,
            at as int,
            start,
            Set::empty(),
            true,
            self@,
        );
        let mut written = empty_set();
        let mut calm = true;
        let mut before: usize = at;
        proof {
            assert(group_view(written@) =~= Set::empty());
            assert(views[at as int] == block@[at as int]@);
        }
        while before > 0
            invariant
                before <= at < block@.len() == views.len(),
                views == Statement::views(block@),
                views[at as int] == block@[at as int]@,
                live@ == start,
                start == old(live)@,
                whole == spot_before(
                    views,
                    at as int,
                    at as int,
                    start,
                    Set::empty(),
                    true,
                    self@,
                ),
                whole == spot_before(
                    views,
                    at as int,
                    before as int,
                    start,
                    group_view(written@),
                    calm,
                    self@,
                ),
            decreases before,
        {
            if live.len() == 0 {
                return None;
            }
            before -= 1;
            let statement = &block[before];
            proof {
                assert(views[before as int] == block@[before as int]@);
            }
            let quiet = calm && !self.has_upvalue(&statement.values_written());
            calm = quiet;
            if !self.meets_groups(&statement.values_read(), &written) {
                if let Some((targets, value)) = find_sole_value(statement) {
                    if let Some(after) = self.try_spot(
                        &block[at],
                        targets,
                        value,
                        live,
                        quiet,
                        Ghost(before as int),
                    ) {
                        return Some((before, after));
                    }
                }
                self.add_groups(&statement.values_written(), &mut written);
                calm = quiet && !statement.has_side_effects();
            }
        }
        None
    }

    /// Takes the values of a block's statements from those before them.
    pub fn inline_statements(&self, block: Vec<Statement>, changed: bool) -> (result: (
        Vec<Statement>,
        bool,
    ))
        ensures
            ({
                let (after, any) = inlined_from(Statement::views(block@), 0, self@, changed);
                Statement::views(result.0@) == after && result.1 == any
            }),
    {
        let ghost whole = inlined_from(Statement::views(block@), 0, self@, changed);
        let count: usize = block.len();
        let mut rest = block;
        let mut any = changed;
        let mut at: usize = 0;
        while at < count
            invariant
                at <= count == rest@.len(),
                whole == inlined_from(Statement::views(rest@), at as int, self@, any),
            decreases count - at,
        {
            let ghost views = Statement::views(rest@);
            proof {
                assert(views[at as int] == rest@[at as int]@);
            }
            let mut live = self.find_singles(&rest[at].values_read());
            let ghost goal = inlined_into(views, at as int, live@, self@);
            let ghost held = any;
            let mut found_any = false;
            let mut done = false;
            proof {
                lemma_inlined_into(views, at as int, live@, self@);
            }
            while !done
                invariant
                    at < count == rest@.len(),
                    !done ==> goal.0 == inlined_into(
                        Statement::views(rest@),
                        at as int,
                        live@,
                        self@,
                    ).0,
                    !done ==> goal.1 == (found_any || inlined_into(
                        Statement::views(rest@),
                        at as int,
                        live@,
                        self@,
                    ).1),
                    done ==> goal == (Statement::views(rest@), found_any),
                decreases weight_from(Statement::views(rest@), 0), (if done {
                    0int
                } else {
                    1int
                }),
            {
                let ghost before = Statement::views(rest@);
                let ghost sought = live@;
                proof {
                    assert(before.len() == rest@.len());
                    lemma_taken_lighter(before, at as int, sought, self@);
                }
                match self.find_spot(&rest, at, &mut live) {
                    Some((from, after)) => {
                        let ghost put = after@;
                        let empty = Statement::Empty(Empty {  });
                        proof {
                            nodes::statement_node(empty);
                        }
                        rest.set(at, after);
                        proof {
                            assert(Statement::views(rest@) =~= before.update(at as int, put));
                        }
                        rest.set(from, empty);
                        proof {
                            assert(Statement::views(rest@) =~= before.update(
                                at as int,
                                put,
                            ).update(from as int, StatementView::Empty));
                        }
                        found_any = true;
                    },
                    None => {
                        done = true;
                    },
                }
            }
            any = any || found_any;
            at += 1;
        }
        (rest, any)
    }

    fn try_argument(&self, statement: &Statement, argument: &RValue, live: &mut Vec<RcLocal>) -> (after:
        Option<RValue>)
        ensures
            match after {
                Some(after) => argument_taking(statement@, argument@, old(live)@, self@) == Some(
                    (after@, final(live)@),
                ),
                None => argument_taking(statement@, argument@, old(live)@, self@) is None
                    && final(live)@ == old(live)@,
            },
    {
        if let Some((targets, value)) = find_sole_value(statement) {
            if let Some(local) = find_sole_local(targets) {
                if !self.effectful(value) && has_local(live, local) {
                    let (found, after) = take_in_value(argument.clone(), local, value, false);
                    if found == Some(true) {
                        remove_first(live, local);
                        return Some(after);
                    }
                }
            }
        }
        None
    }

    fn find_argument_spot(
        &self,
        block: &Vec<Statement>,
        argument: &RValue,
        live: &mut Vec<RcLocal>,
    ) -> (found: Option<(usize, RValue)>)
        ensures
            match found {
                Some((from, after)) => argument_spot(
                    Statement::views(block@),
                    block@.len() as int,
                    argument@,
                    old(live)@,
                    Set::empty(),
                    self@,
                ) == Some((from as int, after@, final(live)@)),
                None => argument_spot(
                    Statement::views(block@),
                    block@.len() as int,
                    argument@,
                    old(live)@,
                    Set::empty(),
                    self@,
                ) is None,
            },
    {
        let ghost views = Statement::views(block@);
        let ghost start = live@;
        let ghost whole = argument_spot(
            views,
            views.len() as int,
            argument@,
            start,
            Set::empty(),
            self@,
        );
        let mut written = empty_set();
        let mut before: usize = block.len();
        proof {
            assert(group_view(written@) =~= Set::empty());
        }
        while before > 0
            invariant
                before <= block@.len() == views.len(),
                views == Statement::views(block@),
                live@ == start,
                start == old(live)@,
                whole == argument_spot(
                    views,
                    views.len() as int,
                    argument@,
                    start,
                    Set::empty(),
                    self@,
                ),
                whole == argument_spot(
                    views,
                    before as int,
                    argument@,
                    start,
                    group_view(written@),
                    self@,
                ),
            decreases before,
        {
            if live.len() == 0 {
                return None;
            }
            before -= 1;
            let statement = &block[before];
            proof {
                assert(views[before as int] == block@[before as int]@);
            }
            if self.has_upvalue(&statement.values_written()) {
                return None;
            }
            if !self.meets_groups(&statement.values_read(), &written) {
                if let Some(after) = self.try_argument(statement, argument, live) {
                    return Some((before, after));
                }
                self.add_groups(&statement.values_written(), &mut written);
            }
        }
        None
    }

    /// Takes the values of an argument from the block.
    fn inline_argument(&self, block: Vec<Statement>, argument: RValue) -> (result: (
        Vec<Statement>,
        RValue,
        bool,
    ))
        ensures
            ({
                let (after, value, any) = argument_inlined(
                    Statement::views(block@),
                    argument@,
                    self@.singles_from(argument@.reads(), 0),
                    self@,
                );
                &&& Statement::views(result.0@) == after
                &&& result.1@ == value
                &&& result.2 == any
            }),
    {
        let mut live = self.find_singles(&argument.values_read());
        let ghost goal = argument_inlined(Statement::views(block@), argument@, live@, self@);
        let mut rest = block;
        let mut value = argument;
        let mut any = false;
        let mut done = false;
        while !done
            invariant
                !done ==> ({
                    let (after, end, more) = argument_inlined(
                        Statement::views(rest@),
                        value@,
                        live@,
                        self@,
                    );
                    goal == (after, end, any || more)
                }),
                done ==> goal == (Statement::views(rest@), value@, any),
            decreases weight_from(Statement::views(rest@), 0), (if done {
                    0int
                } else {
                    1int
                }),
        {
            let ghost before = Statement::views(rest@);
            proof {
                assert(before.len() == rest@.len());
                lemma_argument_spot(
                    before,
                    before.len() as int,
                    value@,
                    live@,
                    Set::empty(),
                    self@,
                );
            }
            match self.find_argument_spot(&rest, &value, &mut live) {
                Some((from, after)) => {
                    let empty = Statement::Empty(Empty {  });
                    proof {
                        nodes::statement_node(empty);
                    }
                    rest.set(from, empty);
                    proof {
                        assert(Statement::views(rest@) =~= before.update(
                            from as int,
                            StatementView::Empty,
                        ));
                    }
                    value = after;
                    any = true;
                },
                None => {
                    done = true;
                },
            }
        }
        (rest, value, any)
    }

    /// Takes the values of an edge's arguments from the block that it leaves.
    pub fn inline_arguments(
        &self,
        block: Vec<Statement>,
        arguments: Vec<(RcLocal, RValue)>,
        changed: bool,
    ) -> (result: (Vec<Statement>, Vec<(RcLocal, RValue)>, bool))
        ensures
            ({
                let (after, values, any) = arguments_inlined(
                    Statement::views(block@),
                    crate::cfg::block::BlockEdge::argument_views(arguments@),
                    0,
                    self@,
                    changed,
                );
                &&& Statement::views(result.0@) == after
                &&& crate::cfg::block::BlockEdge::argument_views(result.1@) == values
                &&& result.2 == any
            }),
    {
        let ghost whole = arguments_inlined(
            Statement::views(block@),
            crate::cfg::block::BlockEdge::argument_views(arguments@),
            0,
            self@,
            changed,
        );
        let count: usize = arguments.len();
        let mut values = arguments;
        let mut rest = block;
        let mut any = changed;
        let mut at: usize = 0;
        while at < count
            invariant
                at <= count == values@.len(),
                whole == arguments_inlined(
                    Statement::views(rest@),
                    crate::cfg::block::BlockEdge::argument_views(values@),
                    at as int,
                    self@,
                    any,
                ),
            decreases count - at,
        {
            let ghost views = crate::cfg::block::BlockEdge::argument_views(values@);
            let (parameter, value) = values.remove(at);
            proof {
                assert(views[at as int] == (parameter, value@));
            }
            let (block, value, more) = self.inline_argument(rest, value);
            rest = block;
            let ghost put = value@;
            values.insert(at, (parameter, value));
            proof {
                assert(crate::cfg::block::BlockEdge::argument_views(values@) =~= views.update(
                    at as int,
                    (parameter, put),
                ));
            }
            any = any || more;
            at += 1;
        }
        (rest, values, any)
    }
}

} // verus!
