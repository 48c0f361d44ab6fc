//! That removing aliases keeps what a block does, and leaves none of them read.

use vstd::prelude::*;

use crate::ast::alias_elimination;
use crate::ast::frame_laws;
use crate::ast::local::RcLocal;
use crate::ast::meaning;
use crate::ast::meaning::{Exit, Machine, Value, World};
use crate::ast::meaning_laws;
use crate::ast::nodes::{AssignView, LValueView, RValueView, StatementView};
use crate::ast::replacement_laws;
use crate::ast::tally;
use crate::ast::{model, rewrite, shape_laws};

verus! {

/// Past an expression that can be observed nothing is replaced.
proof fn lemma_crossed(value: RValueView, alias: RcLocal, source: RcLocal)
    ensures
        value.dealiased(alias, source, true).found != Some(true),
        value.dealiased(alias, source, true).found is None ==> value.dealiased(
            alias,
            source,
            true,
        ).crossed,
    decreases value.size(), 0int,
{
    model::lemma_children_smaller(value);
    lemma_crossed_from(value.children(), 0, alias, source);
}

proof fn lemma_crossed_from(
    values: Seq<RValueView>,
    from: int,
    alias: RcLocal,
    source: RcLocal,
)
    ensures
        RValueView::dealiased_from(values, from, alias, source, true).found != Some(true),
        RValueView::dealiased_from(values, from, alias, source, true).found is None
            ==> RValueView::dealiased_from(values, from, alias, source, true).crossed,
    decreases RValueView::sizes_from(values, from), 1int,
{
    model::lemma_sizes_step(values, from);
    if 0 <= from < values.len() {
        lemma_crossed(values[from], alias, source);
        lemma_crossed_from(values, from + 1, alias, source);
    }
}

/// Where an expression of a list is the one that is replaced, nothing before it
/// can be observed.
proof fn lemma_replaced_at(
    values: Seq<RValueView>,
    from: int,
    alias: RcLocal,
    source: RcLocal,
) -> (i: int)
    requires
        0 <= from,
        RValueView::dealiased_from(values, from, alias, source, false).found == Some(true),
    ensures
        from <= i < values.len(),
        values[i].dealiased(alias, source, false).found == Some(true),
        RValueView::dealiased_from(values, from, alias, source, false).after == values.update(
            i,
            values[i].dealiased(alias, source, false).after,
        ),
        forall|j: int| from <= j < i ==> !(#[trigger] values[j]).has_side_effects(),
    decreases values.len() - from,
{
    let first = values[from].dealiased(alias, source, false);
    if first.found is Some {
        from
    } else {
        if first.crossed {
            lemma_crossed_from(values, from + 1, alias, source);
        }
        let i = lemma_replaced_at(values, from + 1, alias, source);
        assert forall|j: int| from <= j < i implies !(#[trigger] values[j]).has_side_effects() by {
            if j == from {
                assert(!values[from].has_side_effects());
            }
        }
        i
    }
}

/// What is replaced was read.
proof fn lemma_replaced_read(value: RValueView, alias: RcLocal, source: RcLocal)
    requires
        value.dealiased(alias, source, false).found == Some(true),
    ensures
        replacement_laws::count(value.reads(), alias) >= 1,
    decreases value.size(),
{
    if value == RValueView::Local(alias) {
        assert(value.reads() =~= seq![alias]);
        assert(value.reads()[0] == alias);
        replacement_laws::lemma_count_zero(value.reads(), alias);
    } else {
        let children = value.children();
        let i = lemma_replaced_at(children, 0, alias, source);
        model::lemma_child_smaller(value, i);
        lemma_replaced_read(children[i], alias, source);
        replacement_laws::lemma_count_replaced(children, 0, i, children[i], alias);
    }
}

/// Of expressions that read a local once together, those that do not have the
/// read do not read it.
pub proof fn lemma_only_read(values: Seq<RValueView>, from: int, i: int, j: int, local: RcLocal)
    requires
        0 <= from <= i < values.len(),
        from <= j < values.len(),
        i != j,
        replacement_laws::count(RValueView::reads_from(values, from), local) <= 1,
        replacement_laws::count(values[i].reads(), local) >= 1,
    ensures
        !values[j].reads().contains(local),
    decreases values.len() - from,
{
    replacement_laws::lemma_count_read(values, from, local);
    replacement_laws::lemma_count_zero(values[j].reads(), local);
    if from < i && from < j {
        lemma_only_read(values, from + 1, i, j, local);
    } else if from == i {
        replacement_laws::lemma_count_replaced(values, from + 1, j, values[j], local);
    } else {
        replacement_laws::lemma_count_replaced(values, from + 1, i, values[i], local);
    }
}

/// An expression with its one read of an alias replaced by what the alias
/// stands for gives the same, and does not read the alias.
proof fn lemma_dealiased(
    value: RValueView,
    alias: RcLocal,
    source: RcLocal,
    m: Machine,
    world: World,
)
    requires
        !m.shared.contains(alias.id),
        replacement_laws::count(value.reads(), alias) == 1,
        value.dealiased(alias, source, false).found == Some(true),
    ensures
        ({
            let given = m.loaded(source, world);
            let after = value.dealiased(alias, source, false).after;
            &&& replacement_laws::stands_for(
                value,
                after,
                alias,
                given,
                m,
                m.stored(alias, given, world),
                world,
            )
            &&& source != alias ==> replacement_laws::count(after.reads(), alias) == 0
        }),
    decreases value.size(),
{
    let given = m.loaded(source, world);
    let held = m.stored(alias, given, world);
    let after = value.dealiased(alias, source, false).after;
    if value == RValueView::Local(alias) {
        assert(value.children().len() == 0);
        assert(after == RValueView::Local(source));
        assert(m.loaded(alias, held) == given);
        assert(after.reads() =~= seq![source]);
        replacement_laws::lemma_count_zero(after.reads(), alias);
    } else {
        let children = value.children();
        let i = lemma_replaced_at(children, 0, alias, source);
        let other = children[i].dealiased(alias, source, false).after;
        let operands = children.update(i, other);
        model::lemma_child_smaller(value, i);
        lemma_replaced_read(children[i], alias, source);
        assert(value.reads() == RValueView::reads_from(children, 0)) by {
            assert(children.len() > 0);
        }
        replacement_laws::lemma_count_replaced(children, 0, i, other, alias);
        lemma_dealiased(children[i], alias, source, m, world);
        assert forall|j: int| 0 <= j < i implies replacement_laws::is_steady(
            #[trigger] children[j],
            m,
            held,
            world,
        ) by {
            lemma_only_read(children, 0, i, j, alias);
            meaning_laws::unobservable_changes_nothing(children[j], m, world);
            meaning_laws::unread_locals_stay(children[j], alias, given, m, world);
        }
        assert forall|j: int| i < j < children.len() implies !(
        #[trigger] children[j]).reads().contains(alias) by {
            lemma_only_read(children, 0, i, j, alias);
        }
        replacement_laws::lemma_child_replaced(value, i, other, alias, given, m, held, world);
        meaning::lemma_same_head(value, operands);
        assert(after == value.with_children(operands));
        assert(after.reads() == RValueView::reads_from(operands, 0)) by {
            assert(after.children() == operands);
            assert(!(after is Local) && !(after is Closure)) by {
                assert(operands.len() > 0);
            }
        }
    }
}

/// A statement that has the one read of a local, and those that do not.
proof fn lemma_sole_read(
    block: Seq<StatementView>,
    from: int,
    local: RcLocal,
    found: Option<int>,
)
    requires
        0 <= from,
        alias_elimination::sole_read_from(block, from, local, found) is Some,
        found matches Some(at) ==> 0 <= at < from,
    ensures
        ({
            let at = alias_elimination::sole_read_from(block, from, local, found)->0;
            &&& found matches Some(before) ==> at == before
            &&& found is None ==> from <= at < block.len() && replacement_laws::count(
                block[at].reads(),
                local,
            ) == 1
            &&& forall|i: int|
                from <= i < block.len() ==> !(#[trigger] block[i]).writes().contains(local) && (i
                    != at ==> !block[i].reads().contains(local))
        }),
    decreases block.len() - from,
{
    if from < block.len() {
        let reads = alias_elimination::occurrences_from(block[from].reads(), 0, local);
        replacement_laws::lemma_count_zero(block[from].reads(), local);
        let next = if reads == 0 {
            found
        } else {
            Some(from)
        };
        lemma_sole_read(block, from + 1, local, next);
        let at = alias_elimination::sole_read_from(block, from, local, found)->0;
        assert forall|i: int| from <= i < block.len() implies !(
        #[trigger] block[i]).writes().contains(local) && (i != at ==> !block[i].reads().contains(
            local,
        )) by {
            if i > from {
                assert(from + 1 <= i);
            }
        }
    }
}

/// What is known of the statements around an alias that is removed: the one
/// statement that reads it is the one that is replaced, by one that does not.
proof fn lemma_elimination(block: Seq<StatementView>, at: int) -> (i: int)
    requires
        0 <= at < block.len(),
        alias_elimination::elimination(block, at) is Some,
    ensures
        ({
            let (alias, source) = alias_elimination::alias_of(block[at])->0;
            let (read_at, replaced) = alias_elimination::elimination(block, at)->0;
            let roots = block[read_at].roots();
            &&& alias_elimination::alias_of(block[at]) is Some
            &&& at < read_at < block.len()
            &&& replacement_laws::count(block[read_at].reads(), alias) == 1
            &&& forall|k: int|
                at < k < block.len() ==> !(#[trigger] block[k]).writes().contains(alias) && (k
                    != read_at ==> !block[k].reads().contains(alias))
            &&& forall|k: int|
                at < k < read_at ==> !(#[trigger] block[k]).has_side_effects()
                    && !block[k].writes().contains(source)
            &&& 0 <= i < roots.len()
            &&& roots[i].dealiased(alias, source, false).found == Some(true)
            &&& replaced == block[read_at].with_roots(
                roots.update(i, roots[i].dealiased(alias, source, false).after),
            )
            &&& forall|j: int| 0 <= j < i ==> !(#[trigger] roots[j]).has_side_effects()
        }),
{
    let (alias, source) = alias_elimination::alias_of(block[at])->0;
    let (read_at, replaced) = alias_elimination::elimination(block, at)->0;
    lemma_sole_read(block, at + 1, alias, None);
    let roots = block[read_at].roots();
    assert forall|k: int| at < k < read_at implies !(#[trigger] block[k]).has_side_effects()
        && !block[k].writes().contains(source) by {
        assert(!alias_elimination::effects_within(block, at + 1, read_at));
        assert(!alias_elimination::written_within(block, at + 1, read_at + 1, source));
    }
    lemma_replaced_at(roots, 0, alias, source)
}

/// Where one expression of a statement has its one read of a local.
pub proof fn lemma_root_counts(statement: StatementView, i: int, local: RcLocal)
    requires
        0 <= i < statement.roots().len(),
        replacement_laws::count(statement.reads(), local) == 1,
        replacement_laws::count(statement.roots()[i].reads(), local) >= 1,
    ensures
        replacement_laws::count(statement.roots()[i].reads(), local) == 1,
        replacement_laws::count(RValueView::reads_from(statement.roots(), 0), local) == 1,
        !rewrite::direct_reads(statement).contains(local),
{
    rewrite::statements_read_their_expressions(statement);
    replacement_laws::lemma_count_join(
        rewrite::direct_reads(statement),
        RValueView::reads_from(statement.roots(), 0),
        local,
    );
    replacement_laws::lemma_count_replaced(
        statement.roots(),
        0,
        i,
        statement.roots()[i],
        local,
    );
    replacement_laws::lemma_count_zero(rewrite::direct_reads(statement), local);
}

/// Where the assignment of an alias is removed, nothing that is left behind it
/// reads or writes the alias.
pub proof fn removed_aliases_are_not_read(block: Seq<StatementView>, at: int)
    requires
        0 <= at < block.len(),
        alias_elimination::elimination(block, at) is Some,
        (alias_elimination::alias_of(block[at])->0).0 != (alias_elimination::alias_of(
            block[at],
        )->0).1,
    ensures
        ({
            let alias = (alias_elimination::alias_of(block[at])->0).0;
            let (read_at, replaced) = alias_elimination::elimination(block, at)->0;
            let left = block.update(read_at, replaced).remove(at);
            forall|k: int|
                at <= k < left.len() ==> !(#[trigger] left[k]).reads().contains(alias)
                    && !left[k].writes().contains(alias)
        }),
{
    let (alias, source) = alias_elimination::alias_of(block[at])->0;
    let (read_at, replaced) = alias_elimination::elimination(block, at)->0;
    let left = block.update(read_at, replaced).remove(at);
    let i = lemma_elimination(block, at);
    let statement = block[read_at];
    let roots = statement.roots();
    let other = roots[i].dealiased(alias, source, false).after;
    lemma_replaced_read(roots[i], alias, source);
    lemma_root_counts(statement, i, alias);
    replacement_laws::lemma_count_replaced(roots, 0, i, other, alias);
    shape_laws::same_blocks(replaced);
    shape_laws::same_roots(statement);
    shape_laws::given_roots(statement, roots.update(i, other));
    meaning_laws::lemma_same_frame(statement, roots.update(i, other), statement.blocks());
    rewrite::statements_read_their_expressions(replaced);
    lemma_unaliased(roots[i], alias, source);
    replacement_laws::lemma_count_zero(RValueView::reads_from(roots.update(i, other), 0), alias);
    frame_laws::lemma_contains_parts(
        rewrite::direct_reads(replaced),
        RValueView::reads_from(roots.update(i, other), 0),
        alias,
    );
    assert forall|k: int| at <= k < left.len() implies !(#[trigger] left[k]).reads().contains(alias)
        && !left[k].writes().contains(alias) by {
        assert(left[k] == block.update(read_at, replaced)[k + 1]);
        assert(!block[k + 1].writes().contains(alias));
    }
}

/// An expression with its one read of an alias replaced does not read it.
proof fn lemma_unaliased(value: RValueView, alias: RcLocal, source: RcLocal)
    requires
        alias != source,
        replacement_laws::count(value.reads(), alias) == 1,
        value.dealiased(alias, source, false).found == Some(true),
    ensures
        replacement_laws::count(
            value.dealiased(alias, source, false).after.reads(),
            alias,
        ) == 0,
{
    let m = Machine {
        shared: Set::empty(),
        load: |id: u64, rest: int| Value::Nil,
        store: |id: u64, value: Value, rest: int| rest,
        constant: |literal: crate::ast::literal::LiteralView| 0int,
        varargs: Seq::empty(),
        code: |body: Seq<StatementView>| 0int,
        closure: |head: RValueView, code: int, captures: Seq<Value>, rest: int| 0int,
        table: |head: RValueView, values: Seq<Value>, rest: int| 0int,
        apply: |head: RValueView, values: Seq<Value>, rest: int| (Seq::<Value>::empty(), rest),
        perform: |frame: StatementView, values: Seq<Value>, rest: int| rest,
        outcome: |frame: StatementView, values: Seq<Value>, at: int, rest: int| Value::Nil,
        more: |frame: StatementView, values: Seq<Value>, rest: int| false,
    };
    lemma_dealiased(value, alias, source, m, World { locals: Map::empty(), rest: 0 });
}

/// The assignment of an alias gives it the value of the other local.
proof fn lemma_alias_run(statement: StatementView, m: Machine, world: World, fuel: nat)
    requires
        alias_elimination::alias_of(statement) is Some,
    ensures
        ({
            let (alias, source) = alias_elimination::alias_of(statement)->0;
            statement.run(m, world, fuel) == (
                m.stored(alias, m.loaded(source, world), world),
                Exit::Normal,
            )
        }),
{
    let (alias, source) = alias_elimination::alias_of(statement)->0;
    let assign = statement->Assign_0;
    let target = assign.left[0];
    let value = assign.right[0];
    let given = m.loaded(source, world);
    assert(LValueView::children_from(assign.left, 1) =~= Seq::empty());
    assert(LValueView::children_from(assign.left, 0) =~= Seq::empty());
    assert(LValueView::arity_from(assign.left, 1) == 0);
    assert(LValueView::arity_from(assign.left, 0) == 0);
    assert(!StatementView::target_effects_from(assign.left, 1));
    assert(!StatementView::target_effects_from(assign.left, 0));
    assert(statement.roots() =~= assign.right);
    assert(value.evaluated(m, world) == (seq![given], world));
    assert(RValueView::operands_from(assign.right, 1, true, m, world) == (
        Seq::<Value>::empty(),
        world,
    ));
    assert(seq![given] + Seq::<Value>::empty() =~= seq![given]);
    assert(statement.inputs(m, world) == (seq![given], world));
    let next = m.stored(alias, given, world);
    assert(meaning::targets_stored(assign.left, 1, seq![given], 1, m, next) == next);
    assert(meaning::targets_stored(assign.left, 0, seq![given], 0, m, world) == next);
}

impl Machine {
    /// Whether giving one of the locals that others see a value leaves the
    /// others as they are.
    pub open spec fn keeps_cells(self) -> bool {
        forall|left: u64, right: u64, value: Value, rest: int|
            left != right ==> #[trigger] (self.load)(left, (self.store)(right, value, rest)) == (
            self.load)(left, rest)
    }
}

/// A statement that cannot be observed leaves all but the locals that it
/// writes as it is.
pub proof fn lemma_quiet_statement(
    statement: StatementView,
    m: Machine,
    world: World,
    fuel: nat,
)
    requires
        !statement.has_side_effects(),
        m.keeps_cells(),
    ensures
        statement.run(m, world, fuel).1 is Normal,
        forall|local: RcLocal|
            !statement.writes().contains(local) ==> #[trigger] m.loaded(
                local,
                statement.run(m, world, fuel).0,
            ) == m.loaded(local, world),
{
    if let StatementView::Assign(assign) = statement {
        lemma_plain_targets(assign.left, 0);
        assert(statement.roots() =~= assign.right);
        meaning_laws::lemma_unobservable_operands(
            assign.right,
            0,
            statement.expands(),
            m,
            world,
        );
        let values = statement.inputs(m, world).0;
        let arity = LValueView::arity_from(assign.left, 0) as int;
        lemma_quiet_targets(assign.left, 0, values, arity, m, world);
    }
}

pub proof fn lemma_plain_targets(targets: Seq<LValueView>, from: int)
    requires
        0 <= from,
        !StatementView::target_effects_from(targets, from),
    ensures
        LValueView::children_from(targets, from) == Seq::<RValueView>::empty(),
        LValueView::arity_from(targets, from) == 0,
    decreases targets.len() - from,
{
    if from < targets.len() {
        lemma_plain_targets(targets, from + 1);
        assert(LValueView::children_from(targets, from) =~= Seq::empty());
    }
}

proof fn lemma_quiet_targets(
    targets: Seq<LValueView>,
    from: int,
    values: Seq<Value>,
    at: int,
    m: Machine,
    world: World,
)
    requires
        0 <= from,
        m.keeps_cells(),
    ensures
        ({
            let after = meaning::targets_stored(targets, from, values, at, m, world);
            forall|local: RcLocal|
                !LValueView::writes_from(targets, from).contains(local) ==> #[trigger] m.loaded(
                    local,
                    after,
                ) == m.loaded(local, world)
        }),
    decreases targets.len() - from,
{
    if from < targets.len() {
        let value = if 0 <= at < values.len() {
            values[at]
        } else {
            Value::Nil
        };
        let all = LValueView::writes_from(targets, from);
        let rest = LValueView::writes_from(targets, from + 1);
        let own = targets[from].writes();
        assert(all == own + rest);
        let next = match targets[from] {
            LValueView::Local(target) => m.stored(target, value, world),
            _ => world,
        };
        lemma_quiet_targets(targets, from + 1, values, at + 1, m, next);
        let after = meaning::targets_stored(targets, from, values, at, m, world);
        assert forall|local: RcLocal| !all.contains(local) implies #[trigger] m.loaded(local, after)
            == m.loaded(local, world) by {
            frame_laws::lemma_contains_parts(own, rest, local);
            if let LValueView::Local(target) = targets[from] {
                assert(own[0] == target);
                assert(own.contains(target));
                lemma_other_stays(target, local, value, m, world);
            }
        }
    }
}

/// Giving a local a value leaves another as it is.
pub proof fn lemma_other_stays(
    target: RcLocal,
    local: RcLocal,
    value: Value,
    m: Machine,
    world: World,
)
    requires
        target != local,
        m.keeps_cells(),
    ensures
        m.loaded(local, m.stored(target, value, world)) == m.loaded(local, world),
{
    assert(target.id != local.id) by {
        if target.id == local.id {
            assert(target == local);
        }
    }
}

/// Whether the machine and a block leave an alias to itself: nobody else sees
/// it, no block inside a statement mentions it, and no loop tests it anew in
/// every round.
pub open spec fn is_private(block: Seq<StatementView>, alias: RcLocal, m: Machine) -> bool {
    &&& !m.shared.contains(alias.id)
    &&& forall|k: int|
        0 <= k < block.len() ==> {
            &&& !StatementView::blocks_touched((#[trigger] block[k]).blocks(), 0).contains(alias)
            &&& block[k] is While || block[k] is Repeat ==> !block[k].reads().contains(alias)
        }
}

/// The statements between the assignment of an alias and its read, and those
/// from there on.
proof fn lemma_aliased_run(
    block: Seq<StatementView>,
    at: int,
    from: int,
    given: Value,
    m: Machine,
    world: World,
    fuel: nat,
)
    requires
        0 <= at < block.len(),
        alias_elimination::elimination(block, at) is Some,
        is_private(block, (alias_elimination::alias_of(block[at])->0).0, m),
        m.keeps_cells(),
        at < from <= (alias_elimination::elimination(block, at)->0).0,
        given == m.loaded((alias_elimination::alias_of(block[at])->0).1, world),
    ensures
        ({
            let (alias, source) = alias_elimination::alias_of(block[at])->0;
            let (read_at, replaced) = alias_elimination::elimination(block, at)->0;
            let made = block.update(read_at, replaced);
            let (after, exit) = StatementView::run_from(made, from, m, world, fuel);
            StatementView::run_from(block, from, m, m.stored(alias, given, world), fuel) == (
                m.stored(alias, given, after),
                exit,
            )
        }),
    decreases block.len() - from,
{
    let (alias, source) = alias_elimination::alias_of(block[at])->0;
    let (read_at, replaced) = alias_elimination::elimination(block, at)->0;
    let made = block.update(read_at, replaced);
    let held = m.stored(alias, given, world);
    let i = lemma_elimination(block, at);
    let statement = block[from];
    if from < read_at {
        assert(!frame_laws::mentions(statement, alias));
        frame_laws::unmentioned_locals_stay(statement, alias, given, m, world, fuel);
        lemma_quiet_statement(statement, m, world, fuel);
        let next = statement.run(m, world, fuel).0;
        assert(m.loaded(source, next) == given);
        assert(made[from] == statement);
        lemma_aliased_run(block, at, from + 1, given, m, next, fuel);
    } else {
        let roots = statement.roots();
        let other = roots[i].dealiased(alias, source, false).after;
        lemma_replaced_read(roots[i], alias, source);
        lemma_root_counts(statement, i, alias);
        lemma_dealiased(roots[i], alias, source, m, world);
        assert forall|j: int| 0 <= j < i implies replacement_laws::is_steady(
            #[trigger] roots[j],
            m,
            held,
            world,
        ) by {
            lemma_only_read(roots, 0, i, j, alias);
            meaning_laws::unobservable_changes_nothing(roots[j], m, world);
            meaning_laws::unread_locals_stay(roots[j], alias, given, m, world);
        }
        assert forall|j: int| i < j < roots.len() implies !(
        #[trigger] roots[j]).reads().contains(alias) by {
            lemma_only_read(roots, 0, i, j, alias);
        }
        assert(statement.reads().contains(alias)) by {
            replacement_laws::lemma_count_zero(statement.reads(), alias);
        }
        replacement_laws::lemma_statement_replaced(
            statement,
            i,
            other,
            alias,
            given,
            m,
            held,
            world,
            fuel,
        );
        let after = replaced.run(m, world, fuel).0;
        assert(made[from] == replaced);
        assert forall|k: int| from + 1 <= k < made.len() implies !frame_laws::mentions(
            #[trigger] made[k],
            alias,
        ) by {
            assert(made[k] == block[k]);
        }
        frame_laws::lemma_unmentioned_from(made, from + 1, alias, given, m, after, fuel);
        lemma_same_later(block, made, from + 1, m, m.stored(alias, given, after), fuel);
    }
}

pub proof fn lemma_same_later(
    left: Seq<StatementView>,
    right: Seq<StatementView>,
    from: int,
    m: Machine,
    world: World,
    fuel: nat,
)
    requires
        0 <= from,
        left.len() == right.len(),
        forall|k: int| from <= k < left.len() ==> #[trigger] left[k] == right[k],
    ensures
        StatementView::run_from(left, from, m, world, fuel) == StatementView::run_from(
            right,
            from,
            m,
            world,
            fuel,
        ),
    decreases left.len() - from,
{
    if from < left.len() {
        assert(left[from] == right[from]);
        let after = left[from].run(m, world, fuel).0;
        lemma_same_later(left, right, from + 1, m, after, fuel);
    }
}

/// A statement that is taken out of a block leaves the others as they are.
pub proof fn lemma_removed_later(
    block: Seq<StatementView>,
    at: int,
    from: int,
    m: Machine,
    world: World,
    fuel: nat,
)
    requires
        0 <= at < from <= block.len(),
    ensures
        StatementView::run_from(block.remove(at), from - 1, m, world, fuel)
            == StatementView::run_from(block, from, m, world, fuel),
    decreases block.len() - from,
{
    if from < block.len() {
        assert(block.remove(at)[from - 1] == block[from]);
        let after = block[from].run(m, world, fuel).0;
        lemma_removed_later(block, at, from + 1, m, after, fuel);
    }
}

/// Removing one alias keeps what a block does, but for the alias.
pub proof fn removing_an_alias_keeps_runs(
    block: Seq<StatementView>,
    at: int,
    m: Machine,
    world: World,
    fuel: nat,
)
    requires
        0 <= at < block.len(),
        alias_elimination::elimination(block, at) is Some,
        is_private(block, (alias_elimination::alias_of(block[at])->0).0, m),
        m.keeps_cells(),
    ensures
        ({
            let alias = (alias_elimination::alias_of(block[at])->0).0;
            let (read_at, replaced) = alias_elimination::elimination(block, at)->0;
            replacement_laws::ends_alike(
                StatementView::run_from(
                    block.update(read_at, replaced).remove(at),
                    at,
                    m,
                    world,
                    fuel,
                ),
                StatementView::run_from(block, at, m, world, fuel),
                set![alias.id],
            )
        }),
{
    let (alias, source) = alias_elimination::alias_of(block[at])->0;
    let (read_at, replaced) = alias_elimination::elimination(block, at)->0;
    let made = block.update(read_at, replaced);
    let given = m.loaded(source, world);
    let i = lemma_elimination(block, at);
    lemma_alias_run(block[at], m, world, fuel);
    lemma_aliased_run(block, at, at + 1, given, m, world, fuel);
    lemma_removed_later(made, at, at + 1, m, world, fuel);
}

/// The locals of a block that are given the value of another.
pub open spec fn aliases_of(block: Seq<StatementView>) -> Set<u64> {
    Set::new(
        |id: u64|
            exists|k: int|
                0 <= k < block.len() && (#[trigger] alias_elimination::alias_of(block[k])) is Some
                    && (alias_elimination::alias_of(block[k])->0).0.id == id,
    )
}

/// Whether the aliases of a block are left to themselves.
pub open spec fn are_private(block: Seq<StatementView>, m: Machine) -> bool {
    forall|alias: RcLocal| #[trigger]
        aliases_of(block).contains(alias.id) ==> is_private(block, alias, m)
}

/// Runs that end alike one after the other end alike.
pub proof fn lemma_agree_chain(
    a: (World, Exit),
    b: (World, Exit),
    c: (World, Exit),
    first: Set<u64>,
    second: Set<u64>,
)
    requires
        replacement_laws::ends_alike(a, b, first),
        replacement_laws::ends_alike(b, c, second),
        first.subset_of(second),
    ensures
        replacement_laws::ends_alike(a, c, second),
{
    assert forall|id: u64| !second.contains(id) implies a.0.locals.dom().contains(id)
        == #[trigger] c.0.locals.dom().contains(id) && (a.0.locals.dom().contains(id)
        ==> a.0.locals[id] == c.0.locals[id]) by {
        assert(!first.contains(id));
        assert(b.0.locals.dom().contains(id) == c.0.locals.dom().contains(id));
        assert(a.0.locals.dom().contains(id) == b.0.locals.dom().contains(id));
    }
}

/// A statement with an expression replaced keeps its kind: what it writes, the
/// blocks in it, and whether it is an alias.
proof fn lemma_replaced_kind(
    statement: StatementView,
    i: int,
    alias: RcLocal,
    source: RcLocal,
)
    requires
        0 <= i < statement.roots().len(),
        statement.roots()[i].dealiased(alias, source, false).found == Some(true),
    ensures
        ({
            let roots = statement.roots();
            let made = statement.with_roots(
                roots.update(i, roots[i].dealiased(alias, source, false).after),
            );
            &&& made.writes() == statement.writes()
            &&& made.blocks() == statement.blocks()
            &&& (made is While) == (statement is While)
            &&& (made is Repeat) == (statement is Repeat)
            &&& alias_elimination::alias_of(made) is Some ==> alias_elimination::alias_of(
                statement,
            ) is Some && (alias_elimination::alias_of(made)->0).0 == (alias_elimination::alias_of(
                statement,
            )->0).0
        }),
{
    let roots = statement.roots();
    let other = roots[i].dealiased(alias, source, false).after;
    let operands = roots.update(i, other);
    let made = statement.with_roots(operands);
    shape_laws::same_roots(statement);
    shape_laws::given_roots(statement, operands);
    shape_laws::same_blocks(made);
    meaning_laws::lemma_same_frame(statement, operands, statement.blocks());
    if let StatementView::Assign(assign) = statement {
        let set = assign.with_roots(operands);
        assert(made == StatementView::Assign(set));
        model::lemma_target_arity(assign.left, 0);
        shape_laws::lemma_refilled_targets(assign.left, 0, operands, 0);
        let arity = LValueView::arity_from(assign.left, 0) as int;
        assert(set.right =~= operands.skip(arity));
        assert(set.left.len() == assign.left.len());
        assert(set.right.len() == assign.right.len());
        if alias_elimination::alias_of(made) is Some {
            let target = LValueView::refilled_from(assign.left, 0, operands, 0)[0];
            assert((target is Index) == (assign.left[0] is Index));
            lemma_plain_single(assign);
            assert(roots =~= assign.right);
            assert(set.right[0] == other);
            lemma_replaced_local(roots[i], alias, source);
        }
    }
}

proof fn lemma_plain_single(assign: AssignView)
    requires
        assign.left.len() == 1,
        assign.left[0] is Local,
    ensures
        LValueView::children_from(assign.left, 0) == Seq::<RValueView>::empty(),
        LValueView::arity_from(assign.left, 0) == 0,
{
    assert(LValueView::children_from(assign.left, 1) =~= Seq::empty());
    assert(LValueView::children_from(assign.left, 0) =~= Seq::empty());
    assert(LValueView::arity_from(assign.left, 1) == 0);
}

/// What became a local was a local.
proof fn lemma_replaced_local(value: RValueView, alias: RcLocal, source: RcLocal)
    requires
        value.dealiased(alias, source, false).found == Some(true),
        value.dealiased(alias, source, false).after is Local,
    ensures
        value is Local,
{
    if value != RValueView::Local(alias) {
        let children = value.children();
        let i = lemma_replaced_at(children, 0, alias, source);
        let other = children[i].dealiased(alias, source, false).after;
        meaning::lemma_same_head(value, children.update(i, other));
    }
}

/// Removing an alias leaves the others to themselves.
proof fn lemma_still_private(block: Seq<StatementView>, at: int, m: Machine)
    requires
        0 <= at < block.len(),
        alias_elimination::elimination(block, at) is Some,
        are_private(block, m),
    ensures
        ({
            let (read_at, replaced) = alias_elimination::elimination(block, at)->0;
            let made = block.update(read_at, replaced).remove(at);
            &&& are_private(made, m)
            &&& aliases_of(made).subset_of(aliases_of(block))
        }),
{
    let (alias, source) = alias_elimination::alias_of(block[at])->0;
    let (read_at, replaced) = alias_elimination::elimination(block, at)->0;
    let made = block.update(read_at, replaced).remove(at);
    let i = lemma_elimination(block, at);
    lemma_replaced_kind(block[read_at], i, alias, source);
    assert forall|k: int| 0 <= k < made.len() implies exists|j: int|
        0 <= j < block.len() && (#[trigger] made[k] == block[j] || (j == read_at && made[k]
            == replaced)) by {
        let j = if k < at {
            k
        } else {
            k + 1
        };
        assert(made[k] == block.update(read_at, replaced)[j]);
        assert(made[k] == block[j] || (j == read_at && made[k] == replaced));
    }
    assert(aliases_of(block).contains(alias.id)) by {
        assert(alias_elimination::alias_of(block[at]) is Some);
    }
    assert forall|id: u64| #[trigger] aliases_of(made).contains(id) implies aliases_of(
        block,
    ).contains(id) by {
        let k = choose|k: int|
            0 <= k < made.len() && (#[trigger] alias_elimination::alias_of(made[k])) is Some && (
            alias_elimination::alias_of(made[k])->0).0.id == id;
        let j = choose|j: int|
            0 <= j < block.len() && (#[trigger] made[k] == block[j] || (j == read_at && made[k]
                == replaced));
        assert(alias_elimination::alias_of(block[j]) is Some);
    }
    assert forall|other: RcLocal| #[trigger] aliases_of(made).contains(other.id) implies is_private(
        made,
        other,
        m,
    ) by {
        assert(is_private(block, other, m));
        assert(is_private(block, alias, m));
        assert forall|k: int| 0 <= k < made.len() implies {
            &&& !StatementView::blocks_touched((#[trigger] made[k]).blocks(), 0).contains(other)
            &&& made[k] is While || made[k] is Repeat ==> !made[k].reads().contains(other)
        } by {
            let j = choose|j: int|
                0 <= j < block.len() && (#[trigger] made[k] == block[j] || (j == read_at && made[k]
                    == replaced));
            assert(!StatementView::blocks_touched(block[j].blocks(), 0).contains(other));
            if made[k] != block[j] {
                assert(block[read_at].reads().contains(alias)) by {
                    replacement_laws::lemma_count_zero(block[read_at].reads(), alias);
                }
                assert(!(block[read_at] is While) && !(block[read_at] is Repeat));
            }
        }
    }
}

proof fn lemma_eliminated_prefix(block: Seq<StatementView>, from: int, count: usize)
    requires
        0 <= from <= block.len(),
    ensures
        ({
            let made = alias_elimination::eliminated_from(block, from, count).1;
            made.len() >= from && made.take(from) == block.take(from)
        }),
    decreases block.len() - from,
{
    if from < block.len() {
        match alias_elimination::elimination(block, from) {
            Some((read_at, replaced)) => {
                let i = lemma_elimination(block, from);
                let next = block.update(read_at, replaced).remove(from);
                lemma_eliminated_prefix(next, from, tally::bumped(count));
                assert(next.take(from) =~= block.take(from));
            },
            None => {
                lemma_eliminated_prefix(block, from + 1, count);
                let made = alias_elimination::eliminated_from(block, from, count).1;
                assert(made.take(from) =~= made.take(from + 1).take(from));
                assert(block.take(from) =~= block.take(from + 1).take(from));
            },
        }
    }
}

/// Removing the aliases of a block from position `from` on keeps what the block
/// does in every world, but for the aliases themselves.
pub proof fn removing_aliases_keeps_runs(
    block: Seq<StatementView>,
    from: int,
    count: usize,
    m: Machine,
    world: World,
    fuel: nat,
)
    requires
        0 <= from <= block.len(),
        are_private(block, m),
        m.keeps_cells(),
    ensures
        replacement_laws::ends_alike(
            StatementView::run_from(
                alias_elimination::eliminated_from(block, from, count).1,
                from,
                m,
                world,
                fuel,
            ),
            StatementView::run_from(block, from, m, world, fuel),
            aliases_of(block),
        ),
    decreases block.len() - from,
{
    let made = alias_elimination::eliminated_from(block, from, count).1;
    if from < block.len() {
        match alias_elimination::elimination(block, from) {
            Some((read_at, replaced)) => {
                let (alias, source) = alias_elimination::alias_of(block[from])->0;
                let next = block.update(read_at, replaced).remove(from);
                let i = lemma_elimination(block, from);
                assert(aliases_of(block).contains(alias.id)) by {
                    assert(alias_elimination::alias_of(block[from]) is Some);
                }
                assert(is_private(block, alias, m));
                removing_an_alias_keeps_runs(block, from, m, world, fuel);
                lemma_still_private(block, from, m);
                removing_aliases_keeps_runs(next, from, tally::bumped(count), m, world, fuel);
                let a = StatementView::run_from(made, from, m, world, fuel);
                let b = StatementView::run_from(next, from, m, world, fuel);
                let c = StatementView::run_from(block, from, m, world, fuel);
                assert(replacement_laws::ends_alike(b, c, aliases_of(block)));
                lemma_agree_chain(a, b, c, aliases_of(next), aliases_of(block));
            },
            None => {
                lemma_eliminated_prefix(block, from + 1, count);
                assert(made[from] == made.take(from + 1)[from]);
                assert(block[from] == block.take(from + 1)[from]);
                let after = block[from].run(m, world, fuel).0;
                removing_aliases_keeps_runs(block, from + 1, count, m, after, fuel);
            },
        }
    } else {
        lemma_eliminated_prefix(block, from, count);
    }
}

/// What cannot be observed and does not read an alias is passed.
proof fn lemma_skipped(value: RValueView, alias: RcLocal, source: RcLocal)
    requires
        !value.has_side_effects(),
        !value.reads().contains(alias),
    ensures
        value.dealiased(alias, source, false).found is None,
        !value.dealiased(alias, source, false).crossed,
    decreases value.size(), 0int,
{
    let children = value.children();
    model::lemma_children_smaller(value);
    if value == RValueView::Local(alias) {
        assert(value.reads()[0] == alias);
    }
    if children.len() > 0 {
        assert(value.reads() == RValueView::reads_from(children, 0));
        assert(!RValueView::effects_from(children, 0));
        assert forall|j: int| 0 <= j < children.len() implies !(
        #[trigger] children[j]).has_side_effects() && !children[j].reads().contains(alias) by {
            meaning_laws::lemma_no_effect(children, 0, j);
            meaning_laws::lemma_not_read(children, 0, j, alias);
        }
        lemma_skipped_from(children, 0, children.len() as int, alias, source);
    }
}

proof fn lemma_skipped_from(
    values: Seq<RValueView>,
    from: int,
    end: int,
    alias: RcLocal,
    source: RcLocal,
)
    requires
        0 <= from <= end <= values.len(),
        forall|j: int|
            from <= j < end ==> !(#[trigger] values[j]).has_side_effects()
                && !values[j].reads().contains(alias),
    ensures
        RValueView::dealiased_from(values, from, alias, source, false)
            == RValueView::dealiased_from(values, end, alias, source, false),
    decreases RValueView::sizes_from(values, from), 1int,
{
    model::lemma_sizes_step(values, from);
    if from < end {
        lemma_skipped(values[from], alias, source);
        lemma_skipped_from(values, from + 1, end, alias, source);
    }
}

proof fn lemma_found(block: Seq<StatementView>, from: int, local: RcLocal, found: Option<int>)
    requires
        0 <= from,
        forall|k: int| from <= k < block.len() ==> !(#[trigger] block[k]).writes().contains(local),
        match found {
            Some(at) => forall|k: int|
                from <= k < block.len() ==> !(#[trigger] block[k]).reads().contains(local),
            None => exists|at: int| #[trigger] is_sole_read(block, from, local, at),
        },
    ensures
        match found {
            Some(at) => alias_elimination::sole_read_from(block, from, local, found) == found,
            None => alias_elimination::sole_read_from(block, from, local, None) is Some
                && is_sole_read(
                block,
                from,
                local,
                alias_elimination::sole_read_from(block, from, local, None)->0,
            ),
        },
    decreases block.len() - from,
{
    if from < block.len() {
        replacement_laws::lemma_count_zero(block[from].reads(), local);
        match found {
            Some(at) => lemma_found(block, from + 1, local, found),
            None => {
                let at = choose|at: int| #[trigger] is_sole_read(block, from, local, at);
                if at == from {
                    lemma_found(block, from + 1, local, Some(from));
                } else {
                    assert(is_sole_read(block, from + 1, local, at));
                    lemma_found(block, from + 1, local, None);
                    let other = alias_elimination::sole_read_from(block, from + 1, local, None)->0;
                    assert(is_sole_read(block, from + 1, local, other));
                    assert(!block[from].reads().contains(local));
                }
            },
        }
    }
}

/// Whether a statement has the one read of a local from a position on.
pub open spec fn is_sole_read(
    block: Seq<StatementView>,
    from: int,
    local: RcLocal,
    at: int,
) -> bool {
    &&& from <= at < block.len()
    &&& replacement_laws::count(block[at].reads(), local) == 1
    &&& forall|k: int|
        from <= k < block.len() && k != at ==> !(#[trigger] block[k]).reads().contains(local)
}

/// Every alias is removed that is read once, by an expression of a statement
/// that nothing in between keeps from reading the other local.
pub proof fn aliases_are_removed(block: Seq<StatementView>, at: int, read_at: int, i: int)
    requires
        0 <= at < read_at < block.len(),
        alias_elimination::alias_of(block[at]) is Some,
        ({
            let (alias, source) = alias_elimination::alias_of(block[at])->0;
            let roots = block[read_at].roots();
            &&& is_sole_read(block, at + 1, alias, read_at)
            &&& forall|k: int|
                at < k < block.len() ==> !(#[trigger] block[k]).writes().contains(alias)
            &&& forall|k: int|
                at < k <= read_at ==> !(#[trigger] block[k]).writes().contains(source)
            &&& forall|k: int| at < k < read_at ==> !(#[trigger] block[k]).has_side_effects()
            &&& 0 <= i < roots.len()
            &&& roots[i] == RValueView::Local(alias)
            &&& forall|j: int| 0 <= j < i ==> !(#[trigger] roots[j]).has_side_effects()
        }),
    ensures
        alias_elimination::elimination(block, at) is Some,
        (alias_elimination::elimination(block, at)->0).0 == read_at,
{
    let (alias, source) = alias_elimination::alias_of(block[at])->0;
    let roots = block[read_at].roots();
    assert(is_sole_read(block, at + 1, alias, read_at));
    lemma_found(block, at + 1, alias, None);
    let found = alias_elimination::sole_read_from(block, at + 1, alias, None)->0;
    assert(found == read_at) by {
        if found != read_at {
            replacement_laws::lemma_count_zero(block[found].reads(), alias);
        }
    }
    assert(!alias_elimination::written_within(block, at + 1, read_at + 1, source));
    assert(!alias_elimination::effects_within(block, at + 1, read_at));
    let local = RValueView::Local(alias);
    assert(local.reads() =~= seq![alias]);
    assert(local.reads()[0] == alias);
    replacement_laws::lemma_count_zero(local.reads(), alias);
    lemma_root_counts(block[read_at], i, alias);
    assert forall|j: int| 0 <= j < i implies !(#[trigger] roots[j]).has_side_effects()
        && !roots[j].reads().contains(alias) by {
        lemma_only_read(roots, 0, i, j, alias);
    }
    lemma_skipped_from(roots, 0, i, alias, source);
    assert(local.children() =~= Seq::<RValueView>::empty());
    assert(local.dealiased(alias, source, false).found == Some(true));
}

} // verus!
