//! Folding a table used as a register array back into expressions.
//!
//! Obfuscated output routes almost every value through numbered slots of a
//! scratch table. Reading it means tracking those slots by hand. This pass
//! substitutes a slot's value into its single read when doing so cannot change
//! what the program does. Any one condition failing abandons the fold.

use vstd::prelude::*;

use rustc_hash::FxHashSet;

use crate::ast::alias_elimination::{collect_reference_captures, has_local};
use crate::ast::literal::{Literal, LiteralView, Number, NumberView};
use crate::ast::local::RcLocal;
use crate::ast::local_grouping::add_all;
use crate::ast::local_rw::LocalRw;
use crate::ast::nodes::{
    Assign, Block, Call, CallView, Index, IndexView, LValue, LValueView, RValue, RValueView,
    Select, SelectView, Statement, StatementView,
};
use crate::ast::tally::bump;
use crate::ast::{local_grouping, model, nodes, shape_laws, tally};
use crate::collections::{empty_set, has_member, insert_member};
use crate::text::{copy_bytes, same_bytes, spells};

verus! {

broadcast use nodes::group_views;

/// How far forward a fold looks for its read.
///
/// The cap keeps the scan linear in block length. Folds beyond this distance
/// are rare and not worth a quadratic worst case.
pub const SLOT_SCAN_LIMIT: usize = 64;

/// The least magnitude from which on whole numbers are not told apart exactly.
pub const EXACT_INTEGER_LIMIT: i128 = 9_007_199_254_740_992;

/// A constant slot key. Only these can be matched between a write and a read.
#[derive(Debug)]
pub enum SlotKey {
    Integer(i128),
    Name(Vec<u8>),
}

/// The model of a `SlotKey`.
#[verifier::ext_equal]
pub enum SlotKeyView {
    Integer(int),
    Name(Seq<u8>),
}

impl SlotKey {
    pub open spec fn view(&self) -> SlotKeyView {
        match self {
            SlotKey::Integer(value) => SlotKeyView::Integer(*value as int),
            SlotKey::Name(name) => SlotKeyView::Name(name@),
        }
    }

    fn same(&self, other: &SlotKey) -> (result: bool)
        ensures
            result == (self@ == other@),
    {
        match (self, other) {
            (SlotKey::Integer(left), SlotKey::Integer(right)) => *left == *right,
            (SlotKey::Name(left), SlotKey::Name(right)) => same_bytes(
                left.as_slice(),
                right.as_slice(),
            ),
            _ => false,
        }
    }
}

/// The slot key of an expression: a whole number that is told apart exactly, or
/// a string.
pub open spec fn slot_key(value: RValueView) -> Option<SlotKeyView> {
    match value {
        RValueView::Literal(LiteralView::Number(NumberView::Integer(key))) => if
        -EXACT_INTEGER_LIMIT < key < EXACT_INTEGER_LIMIT {
            Some(SlotKeyView::Integer(key))
        } else {
            None
        },
        RValueView::Literal(LiteralView::Number(NumberView::NegativeZero)) => Some(
            SlotKeyView::Integer(0),
        ),
        RValueView::Literal(LiteralView::String(key)) => Some(SlotKeyView::Name(key)),
        _ => None,
    }
}

/// Whether an index is a slot of a table.
pub open spec fn is_slot(index: IndexView, table: RcLocal, key: SlotKeyView) -> bool {
    *index.left == RValueView::Local(table) && slot_key(*index.right) == Some(key)
}

/// The table, the key and the value of a write to one constant slot of one
/// local table.
pub open spec fn slot_write(statement: StatementView) -> Option<
    (RcLocal, SlotKeyView, RValueView),
> {
    match statement {
        StatementView::Assign(assign) => if assign.prefix || assign.parallel || assign.left.len()
            != 1 || assign.right.len() != 1 {
            None
        } else {
            match assign.left[0] {
                LValueView::Index(index) => match (*index.left, slot_key(*index.right)) {
                    (RValueView::Local(table), Some(key)) => Some((table, key, assign.right[0])),
                    _ => None,
                },
                _ => None,
            }
        },
        _ => None,
    }
}

/// Whether a target is a slot of a table.
pub open spec fn targets_slot(target: LValueView, table: RcLocal, key: SlotKeyView) -> bool {
    match target {
        LValueView::Index(index) => is_slot(index, table, key),
        _ => false,
    }
}

/// Whether a statement writes a slot of a table.
pub open spec fn writes_slot(statement: StatementView, table: RcLocal, key: SlotKeyView) -> bool {
    match statement {
        StatementView::Assign(assign) => exists|i: int|
            0 <= i < assign.left.len() && targets_slot(#[trigger] assign.left[i], table, key),
        _ => false,
    }
}

/// The local that a statement binds to a table literal.
pub open spec fn table_binding(statement: StatementView) -> Seq<RcLocal> {
    match statement {
        StatementView::Assign(assign) => if !assign.parallel && assign.left.len() == 1
            && assign.right.len() == 1 && assign.right[0] is Table {
            match assign.left[0] {
                LValueView::Local(target) => seq![target],
                _ => Seq::empty(),
            }
        } else {
            Seq::empty()
        },
        _ => Seq::empty(),
    }
}

/// A use of a local that tells on its slots.
#[derive(Debug)]
pub enum SlotUse {
    /// A use in any way other than as the base of a constant slot, after which
    /// the slots can be read and written by anything.
    Opaque(RcLocal),
    /// A read of a slot.
    Read(RcLocal, SlotKey),
}

/// The model of a `SlotUse`.
#[verifier::ext_equal]
pub enum SlotUseView {
    Opaque(RcLocal),
    Read(RcLocal, SlotKeyView),
}

impl SlotUse {
    pub open spec fn view(&self) -> SlotUseView {
        match self {
            SlotUse::Opaque(local) => SlotUseView::Opaque(*local),
            SlotUse::Read(local, key) => SlotUseView::Read(*local, key@),
        }
    }

    /// The models of a list of uses.
    pub open spec fn views(uses: Seq<SlotUse>) -> Seq<SlotUseView> {
        Seq::new(uses.len(), |i: int| uses[i]@)
    }
}

/// Whether a call sets the metatable of its arguments, after which the slots
/// are no longer plain.
pub open spec fn sets_metatable(callee: RValueView) -> bool {
    match callee {
        RValueView::Global(global) => crate::text::ascii_text(global.name) == "setmetatable"@,
        RValueView::Index(index) => match *index.right {
            RValueView::Literal(LiteralView::String(name)) => crate::text::ascii_text(name)
                == "setmetatable"@,
            _ => false,
        },
        _ => false,
    }
}

/// The locals among the arguments from position `from` on.
pub open spec fn opaque_arguments(arguments: Seq<RValueView>, from: int) -> Seq<SlotUseView>
    decreases arguments.len() - from,
{
    if 0 <= from < arguments.len() {
        let rest = opaque_arguments(arguments, from + 1);
        match arguments[from] {
            RValueView::Local(local) => seq![SlotUseView::Opaque(local)] + rest,
            _ => rest,
        }
    } else {
        Seq::empty()
    }
}

/// What a call says about the slots of its arguments.
pub open spec fn call_slot_uses(call: CallView) -> Seq<SlotUseView> {
    if sets_metatable(*call.value) {
        opaque_arguments(call.arguments, 0)
    } else {
        Seq::empty()
    }
}

/// That each of some locals is used opaquely.
pub open spec fn opaque_uses(locals: Seq<RcLocal>) -> Seq<SlotUseView> {
    Seq::new(locals.len(), |i: int| SlotUseView::Opaque(locals[i]))
}

impl RValueView {
    /// What an expression says about slots.
    pub open spec fn slot_uses(self) -> Seq<SlotUseView>
        decreases self.size(), 0int,
    {
        proof {
            model::lemma_children_smaller(self);
        }
        match self {
            RValueView::Local(local) => seq![SlotUseView::Opaque(local)],
            RValueView::Index(index) => match *index.left {
                RValueView::Local(table) => {
                    proof {
                        model::lemma_child_smaller(self, 1);
                        assert(self.children()[1] == *index.right);
                    }
                    let own = match slot_key(*index.right) {
                        Some(key) => SlotUseView::Read(table, key),
                        None => SlotUseView::Opaque(table),
                    };
                    seq![own] + index.right.slot_uses()
                },
                _ => Self::slot_uses_from(self.children(), 0),
            },
            RValueView::Call(call) => call_slot_uses(call) + Self::slot_uses_from(
                self.children(),
                0,
            ),
            RValueView::Select(SelectView::Call(call)) => call_slot_uses(call)
                + Self::slot_uses_from(self.children(), 0),
            _ => Self::slot_uses_from(self.children(), 0),
        }
    }

    /// What the expressions from position `from` on say about slots.
    pub open spec fn slot_uses_from(values: Seq<RValueView>, from: int) -> Seq<SlotUseView>
        decreases Self::sizes_from(values, from), 1int,
    {
        proof {
            model::lemma_sizes_step(values, from);
        }
        if 0 <= from < values.len() {
            values[from].slot_uses() + Self::slot_uses_from(values, from + 1)
        } else {
            Seq::empty()
        }
    }

    /// How often an expression reads a slot.
    pub open spec fn slot_reads(self, table: RcLocal, key: SlotKeyView) -> nat
        decreases self.size(), 0int,
    {
        proof {
            model::lemma_children_smaller(self);
        }
        if self matches RValueView::Index(index) && is_slot(index, table, key) {
            1
        } else {
            Self::slot_reads_from(self.children(), 0, table, key)
        }
    }

    /// How often the expressions from position `from` on read a slot.
    pub open spec fn slot_reads_from(
        values: Seq<RValueView>,
        from: int,
        table: RcLocal,
        key: SlotKeyView,
    ) -> nat
        decreases Self::sizes_from(values, from), 1int,
    {
        proof {
            model::lemma_sizes_step(values, from);
        }
        if 0 <= from < values.len() {
            values[from].slot_reads(table, key) + Self::slot_reads_from(
                values,
                from + 1,
                table,
                key,
            )
        } else {
            0
        }
    }

    /// This expression with a value in place of a slot.
    pub open spec fn with_slot(self, table: RcLocal, key: SlotKeyView, value: RValueView) -> RValueView
        decreases self.size(), 0int,
    {
        proof {
            model::lemma_children_smaller(self);
        }
        if self matches RValueView::Index(index) && is_slot(index, table, key) {
            value
        } else if self is Closure {
            self
        } else {
            self.with_children(Self::with_slot_from(self.children(), 0, table, key, value))
        }
    }

    /// The expressions from position `from` on with a value in place of a slot.
    pub open spec fn with_slot_from(
        values: Seq<RValueView>,
        from: int,
        table: RcLocal,
        key: SlotKeyView,
        value: RValueView,
    ) -> Seq<RValueView>
        decreases Self::sizes_from(values, from), 1int,
    {
        proof {
            model::lemma_sizes_step(values, from);
        }
        if 0 <= from < values.len() {
            seq![values[from].with_slot(table, key, value)] + Self::with_slot_from(
                values,
                from + 1,
                table,
                key,
                value,
            )
        } else {
            Seq::empty()
        }
    }
}

impl LValueView {
    /// What a target says about slots.
    pub open spec fn slot_uses(self) -> Seq<SlotUseView> {
        match self {
            LValueView::Index(index) => match *index.left {
                RValueView::Local(table) => {
                    let own: Seq<SlotUseView> = if slot_key(*index.right) is None {
                        seq![SlotUseView::Opaque(table)]
                    } else {
                        Seq::empty()
                    };
                    own + index.right.slot_uses()
                },
                _ => index.left.slot_uses() + index.right.slot_uses(),
            },
            _ => Seq::empty(),
        }
    }

    /// What the targets from position `from` on say about slots.
    pub open spec fn slot_uses_from(targets: Seq<LValueView>, from: int) -> Seq<SlotUseView>
        decreases targets.len() - from,
    {
        if 0 <= from < targets.len() {
            targets[from].slot_uses() + Self::slot_uses_from(targets, from + 1)
        } else {
            Seq::empty()
        }
    }

    /// How often a target reads a slot. Writing the slot is not reading it.
    pub open spec fn slot_reads(self, table: RcLocal, key: SlotKeyView) -> nat {
        match self {
            LValueView::Index(index) => if is_slot(index, table, key) {
                0
            } else {
                index.left.slot_reads(table, key) + index.right.slot_reads(table, key)
            },
            _ => 0,
        }
    }

    /// How often the targets from position `from` on read a slot.
    pub open spec fn slot_reads_from(
        targets: Seq<LValueView>,
        from: int,
        table: RcLocal,
        key: SlotKeyView,
    ) -> nat
        decreases targets.len() - from,
    {
        if 0 <= from < targets.len() {
            targets[from].slot_reads(table, key) + Self::slot_reads_from(
                targets,
                from + 1,
                table,
                key,
            )
        } else {
            0
        }
    }
}

impl StatementView {
    /// Whether every local that a statement reads is in its values.
    pub open spec fn reads_plainly(self) -> bool {
        self is Call || self is MethodCall || self is Return || self is If || self is While
            || self is Repeat || self is NumericFor || self is GenericFor || self is Empty
            || self is Comment || self is Break || self is Continue || self is Goto || self is Label
    }

    /// What a statement says about slots, outside of the blocks nested in it.
    /// A statement whose reads are not told by its values uses all it mentions
    /// opaquely.
    pub open spec fn line_slot_uses(self) -> Seq<SlotUseView> {
        match self {
            StatementView::Assign(assign) => LValueView::slot_uses_from(assign.left, 0)
                + RValueView::slot_uses_from(assign.right, 0),
            StatementView::Call(call) => call_slot_uses(call) + RValueView::slot_uses_from(
                self.rvalues(),
                0,
            ),
            _ => if self.reads_plainly() {
                RValueView::slot_uses_from(self.rvalues(), 0)
            } else {
                opaque_uses(self.reads()) + opaque_uses(self.writes())
            },
        }
    }

    /// How often a statement reads a slot, outside of the blocks nested in it.
    pub open spec fn slot_reads(self, table: RcLocal, key: SlotKeyView) -> nat {
        match self {
            StatementView::Assign(assign) => LValueView::slot_reads_from(assign.left, 0, table, key)
                + RValueView::slot_reads_from(assign.right, 0, table, key),
            _ => RValueView::slot_reads_from(self.rvalues(), 0, table, key),
        }
    }

    /// This statement with a value in place of a slot.
    pub open spec fn with_slot(self, table: RcLocal, key: SlotKeyView, value: RValueView) -> StatementView {
        self.with_roots(RValueView::with_slot_from(self.roots(), 0, table, key, value))
    }

    /// Whether a statement could observe a slot written before it, or change
    /// the value being moved across it. Any call may run a closure that
    /// captured something, and any write through an index may target a table
    /// that the value reads.
    pub open spec fn ends_window(self) -> bool {
        match self {
            StatementView::Empty | StatementView::Comment(_) => false,
            StatementView::Assign(assign) => (exists|i: int|
                0 <= i < assign.left.len() && !(#[trigger] assign.left[i] is Local))
                || self.has_side_effects(),
            _ => true,
        }
    }

    /// Whether a statement holds blocks that run or do not run.
    pub open spec fn branches(self) -> bool {
        self is If || self.is_loop()
    }
}

/// What the statements of a tree say about its tables.
#[verifier::ext_equal]
pub struct SlotFacts {
    /// The locals written, in order.
    pub written: Seq<RcLocal>,
    /// The locals bound to a table literal.
    pub bound: Seq<RcLocal>,
    pub uses: Seq<SlotUseView>,
}

impl SlotFacts {
    pub open spec fn none() -> SlotFacts {
        SlotFacts { written: Seq::empty(), bound: Seq::empty(), uses: Seq::empty() }
    }

    /// These facts and others.
    pub open spec fn and(self, other: SlotFacts) -> SlotFacts {
        SlotFacts {
            written: self.written + other.written,
            bound: self.bound + other.bound,
            uses: self.uses + other.uses,
        }
    }

    /// What a statement says, outside of the blocks nested in it.
    pub open spec fn of_line(statement: StatementView) -> SlotFacts {
        SlotFacts {
            written: statement.writes(),
            bound: table_binding(statement),
            uses: statement.line_slot_uses(),
        }
    }

    /// Whether a local is provably a plain table created here with every use
    /// accounted for: it is written once, by a table literal, is not protected
    /// and is never used other than as the base of a constant slot.
    pub open spec fn is_foldable(self, protected: Set<u64>, table: RcLocal) -> bool {
        &&& !protected.contains(table.id)
        &&& self.bound.contains(table)
        &&& !is_repeated(self.written, table)
        &&& !self.uses.contains(SlotUseView::Opaque(table))
    }
}

/// Whether a local is in a list more than once.
pub open spec fn is_repeated(locals: Seq<RcLocal>, local: RcLocal) -> bool {
    exists|i: int, j: int|
        0 <= i < j < locals.len() && #[trigger] locals[i] == local && #[trigger] locals[j] == local
}

impl StatementView {
    /// What a statement says about the tables of its tree.
    pub open spec fn slot_facts(self) -> SlotFacts
        decreases self.size(), 0int, 0int,
    {
        proof {
            model::lemma_statement_parts(self);
        }
        if self is Do {
            SlotFacts::of_line(self)
        } else {
            SlotFacts::of_line(self).and(Self::block_slot_facts(self.blocks(), 0))
        }
    }

    /// What the blocks from position `from` on say.
    pub open spec fn block_slot_facts(blocks: Seq<Seq<StatementView>>, from: int) -> SlotFacts
        decreases Self::block_sizes_from(blocks, from), 2int, blocks.len() - from,
    {
        if 0 <= from < blocks.len() {
            Self::slot_facts_from(blocks[from], 0).and(Self::block_slot_facts(blocks, from + 1))
        } else {
            SlotFacts::none()
        }
    }

    /// What the statements from position `from` on say.
    pub open spec fn slot_facts_from(statements: Seq<StatementView>, from: int) -> SlotFacts
        decreases Self::sizes_from(statements, from), 1int, 0int,
    {
        proof {
            model::lemma_statement_sizes_step(statements, from);
        }
        if 0 <= from < statements.len() {
            statements[from].slot_facts().and(Self::slot_facts_from(statements, from + 1))
        } else {
            SlotFacts::none()
        }
    }
}

/// A slot of a local table.
pub type Slot = (RcLocal, SlotKeyView);

/// The reads of slots among uses from position `from` on.
pub open spec fn reads_in(uses: Seq<SlotUseView>, from: int) -> Seq<Slot>
    decreases uses.len() - from,
{
    if 0 <= from < uses.len() {
        let rest = reads_in(uses, from + 1);
        match uses[from] {
            SlotUseView::Read(table, key) => seq![(table, key)] + rest,
            SlotUseView::Opaque(_) => rest,
        }
    } else {
        Seq::empty()
    }
}

/// How often a slot is among reads from position `from` on.
pub open spec fn read_count(reads: Seq<Slot>, from: int, slot: Slot) -> nat
    decreases reads.len() - from,
{
    if 0 <= from < reads.len() {
        read_count(reads, from + 1, slot) + (if reads[from] == slot {
            1nat
        } else {
            0nat
        })
    } else {
        0
    }
}

/// The reads from position `from` on without the first one of a slot.
pub open spec fn without_read(reads: Seq<Slot>, from: int, slot: Slot) -> Seq<Slot>
    decreases reads.len() - from,
{
    if 0 <= from < reads.len() {
        if reads[from] == slot {
            reads.skip(from + 1)
        } else {
            seq![reads[from]] + without_read(reads, from + 1, slot)
        }
    } else {
        Seq::empty()
    }
}

/// The one read of a slot that its value can be moved to, from statement `at`
/// on before `end`.
pub open spec fn read_at(
    block: Seq<StatementView>,
    slot: Slot,
    effectful: bool,
    at: int,
    end: int,
) -> Option<int>
    decreases end - at,
{
    if 0 <= at < end <= block.len() {
        if block[at].branches() || block[at].slot_reads(slot.0, slot.1) > 1 {
            None
        } else if block[at].slot_reads(slot.0, slot.1) == 1 {
            Some(at)
        } else if block[at].ends_window() || (effectful && block[at].locals().len() > 0) {
            None
        } else {
            read_at(block, slot, effectful, at + 1, end)
        }
    } else {
        None
    }
}

/// Where the scan for a read past a write ends.
pub open spec fn scan_end(start: int, length: int) -> int {
    if start + SLOT_SCAN_LIMIT + 1 < length {
        start + SLOT_SCAN_LIMIT + 1
    } else {
        length
    }
}

/// Whether what was written to a slot cannot be observed past the read of it:
/// the statement that reads it writes it anew, or it is the only read left.
pub open spec fn is_dead_after(statement: StatementView, slot: Slot, reads: Seq<Slot>) -> bool {
    writes_slot(statement, slot.0, slot.1) || read_count(reads, 0, slot) == 1
}

/// What tables can be folded, and the reads of slots that are left.
pub struct SlotNotes {
    pub foldable: spec_fn(RcLocal) -> bool,
    pub reads: Seq<Slot>,
}

/// The fold of the slot written at a statement: the slot, its value and where
/// it is read.
pub open spec fn fold_at(block: Seq<StatementView>, at: int, notes: SlotNotes) -> Option<
    (Slot, RValueView, int),
> {
    match slot_write(block[at]) {
        Some((table, key, value)) => if !(notes.foldable)(table) || value.reads().contains(table) {
            None
        } else {
            match read_at(
                block,
                (table, key),
                value.has_side_effects(),
                at + 1,
                scan_end(at, block.len() as int),
            ) {
                Some(read) => if is_dead_after(block[read], (table, key), notes.reads) {
                    Some(((table, key), value, read))
                } else {
                    None
                },
                None => None,
            }
        },
        None => None,
    }
}

/// A block with a slot's value moved to its read.
pub open spec fn with_fold(
    block: Seq<StatementView>,
    at: int,
    slot: Slot,
    value: RValueView,
    read: int,
) -> Seq<StatementView> {
    block.update(read, block[read].with_slot(slot.0, slot.1, value)).remove(at)
}

proof fn lemma_read_at(block: Seq<StatementView>, slot: Slot, effectful: bool, at: int, end: int)
    ensures
        match read_at(block, slot, effectful, at, end) {
            Some(read) => 0 <= at <= read < end <= block.len(),
            None => true,
        },
    decreases end - at,
{
    if 0 <= at < end <= block.len() {
        lemma_read_at(block, slot, effectful, at + 1, end);
    }
}

/// A fold takes a statement out.
pub proof fn lemma_fold_shortens(block: Seq<StatementView>, at: int, notes: SlotNotes)
    requires
        0 <= at < block.len(),
    ensures
        match fold_at(block, at, notes) {
            Some((slot, value, read)) => at < read < block.len() && with_fold(
                block,
                at,
                slot,
                value,
                read,
            ).len() == block.len() - 1,
            None => true,
        },
{
    match slot_write(block[at]) {
        Some((table, key, value)) => lemma_read_at(
            block,
            (table, key),
            value.has_side_effects(),
            at + 1,
            scan_end(at, block.len() as int),
        ),
        None => {},
    }
}

proof fn lemma_window(block: Seq<StatementView>, slot: Slot, effectful: bool, at: int, end: int)
    ensures
        match read_at(block, slot, effectful, at, end) {
            Some(read) => {
                &&& 0 <= at <= read < end <= block.len()
                &&& block[read].slot_reads(slot.0, slot.1) == 1
                &&& !block[read].branches()
                &&& forall|i: int|
                    at <= i < read ==> {
                        &&& !(#[trigger] block[i]).ends_window()
                        &&& !block[i].branches()
                        &&& block[i].slot_reads(slot.0, slot.1) == 0
                        &&& effectful ==> block[i].locals().len() == 0
                    }
            },
            None => true,
        },
    decreases end - at,
{
    if 0 <= at < end <= block.len() {
        lemma_window(block, slot, effectful, at + 1, end);
    }
}

/// A fold meets every condition for it: the write is of one constant slot of a
/// table whose uses are all accounted for, and which the value does not read;
/// its read follows in the same block, near enough and once, with nothing in
/// between that branches, could observe the slot or could change the value; and
/// past that read nothing observes the write.
pub proof fn folds_meet_their_conditions(block: Seq<StatementView>, at: int, notes: SlotNotes)
    requires
        0 <= at < block.len(),
        fold_at(block, at, notes) is Some,
    ensures
        ({
            let (slot, value, read) = fold_at(block, at, notes)->0;
            &&& slot_write(block[at]) == Some((slot.0, slot.1, value))
            &&& (notes.foldable)(slot.0)
            &&& !value.reads().contains(slot.0)
            &&& at < read < block.len()
            &&& read <= at + SLOT_SCAN_LIMIT
            &&& block[read].slot_reads(slot.0, slot.1) == 1
            &&& !block[read].branches()
            &&& forall|i: int|
                at < i < read ==> {
                    &&& !(#[trigger] block[i]).ends_window()
                    &&& !block[i].branches()
                    &&& block[i].slot_reads(slot.0, slot.1) == 0
                    &&& value.has_side_effects() ==> block[i].locals().len() == 0
                }
            &&& is_dead_after(block[read], slot, notes.reads)
        }),
{
    let (slot, value, read) = fold_at(block, at, notes)->0;
    lemma_window(
        block,
        slot,
        value.has_side_effects(),
        at + 1,
        scan_end(at, block.len() as int),
    );
}

/// A block with the slots written at a statement folded, again and again: what
/// takes the place of a write is often the next link of the same chain. With
/// it, the reads left and the number of folds.
pub open spec fn folded_at(
    block: Seq<StatementView>,
    at: int,
    notes: SlotNotes,
    count: usize,
) -> (Seq<StatementView>, Seq<Slot>, usize)
    decreases block.len(),
{
    if 0 <= at < block.len() {
        proof {
            lemma_fold_shortens(block, at, notes);
        }
        match fold_at(block, at, notes) {
            Some((slot, value, read)) => folded_at(
                with_fold(block, at, slot, value, read),
                at,
                SlotNotes { reads: without_read(notes.reads, 0, slot), ..notes },
                tally::bumped(count),
            ),
            None => (block, notes.reads, count),
        }
    } else {
        (block, notes.reads, count)
    }
}

/// A block with the slots written at the statements before `at` folded, the
/// last one first.
pub open spec fn folded_before(
    block: Seq<StatementView>,
    at: int,
    notes: SlotNotes,
    count: usize,
) -> (Seq<StatementView>, Seq<Slot>, usize)
    decreases at,
{
    if at <= 0 {
        (block, notes.reads, count)
    } else {
        let (next, reads, more) = folded_at(block, at - 1, notes, count);
        folded_before(next, at - 1, SlotNotes { reads, ..notes }, more)
    }
}

impl StatementView {
    /// This statement with the slots in the blocks nested in it folded.
    pub open spec fn folded(self, notes: SlotNotes, count: usize) -> (StatementView, Seq<Slot>, usize)
        decreases self.size(), 0int, 0int,
    {
        proof {
            model::lemma_statement_parts(self);
        }
        if self is Do {
            (self, notes.reads, count)
        } else {
            let (blocks, reads, more) = Self::folded_blocks(self.blocks(), 0, notes, count);
            (self.with_blocks(blocks), reads, more)
        }
    }

    /// The blocks from position `from` on with slots folded.
    pub open spec fn folded_blocks(
        blocks: Seq<Seq<StatementView>>,
        from: int,
        notes: SlotNotes,
        count: usize,
    ) -> (Seq<Seq<StatementView>>, Seq<Slot>, usize)
        decreases Self::block_sizes_from(blocks, from), 3int, blocks.len() - from,
    {
        if 0 <= from < blocks.len() {
            let (first, reads, more) = Self::folded_block(blocks[from], notes, count);
            let (rest, last, most) = Self::folded_blocks(
                blocks,
                from + 1,
                SlotNotes { reads, ..notes },
                more,
            );
            (seq![first] + rest, last, most)
        } else {
            (Seq::empty(), notes.reads, count)
        }
    }

    /// A block with slots folded, those nested in it first.
    pub open spec fn folded_block(block: Seq<StatementView>, notes: SlotNotes, count: usize) -> (
        Seq<StatementView>,
        Seq<Slot>,
        usize,
    )
        decreases Self::sizes_from(block, 0), 2int, 0int,
    {
        let (statements, reads, more) = Self::folded_from(block, 0, notes, count);
        folded_before(statements, statements.len() as int, SlotNotes { reads, ..notes }, more)
    }

    /// The statements from position `from` on with the slots in the blocks
    /// nested in them folded.
    pub open spec fn folded_from(
        statements: Seq<StatementView>,
        from: int,
        notes: SlotNotes,
        count: usize,
    ) -> (Seq<StatementView>, Seq<Slot>, usize)
        decreases Self::sizes_from(statements, from), 1int, 0int,
    {
        proof {
            model::lemma_statement_sizes_step(statements, from);
        }
        if 0 <= from < statements.len() {
            let (first, reads, more) = statements[from].folded(notes, count);
            let (rest, last, most) = Self::folded_from(
                statements,
                from + 1,
                SlotNotes { reads, ..notes },
                more,
            );
            (seq![first] + rest, last, most)
        } else {
            (Seq::empty(), notes.reads, count)
        }
    }
}

/// What can be folded in a tree.
pub open spec fn notes_of(block: Seq<StatementView>, protected: Seq<RcLocal>) -> SlotNotes {
    let facts = StatementView::slot_facts_from(block, 0);
    let held = local_grouping::numbers(protected).union(StatementView::references_of(block, 0));
    SlotNotes {
        foldable: |table: RcLocal| facts.is_foldable(held, table),
        reads: reads_in(facts.uses, 0),
    }
}

fn find_key(value: &RValue) -> (key: Option<SlotKey>)
    ensures
        match key {
            Some(key) => slot_key(value@) == Some(key@),
            None => slot_key(value@) is None,
        },
{
    proof {
        nodes::rvalue_node(*value);
    }
    match value {
        RValue::Literal(Literal::Number(Number::Integer(key))) => if -EXACT_INTEGER_LIMIT < *key
            && *key < EXACT_INTEGER_LIMIT {
            Some(SlotKey::Integer(*key))
        } else {
            None
        },
        RValue::Literal(Literal::Number(Number::NegativeZero)) => Some(SlotKey::Integer(0)),
        RValue::Literal(Literal::String(key)) => Some(SlotKey::Name(copy_bytes(key.as_slice()))),
        _ => None,
    }
}

fn names_slot(index: &Index, table: RcLocal, key: &SlotKey) -> (result: bool)
    ensures
        result == is_slot(index@, table, key@),
{
    if index.left.as_local() != Some(table) {
        return false;
    }
    match find_key(&index.right) {
        Some(other) => other.same(key),
        None => false,
    }
}

fn find_slot_write<'a>(statement: &'a Statement) -> (found: Option<(RcLocal, SlotKey, &'a RValue)>)
    ensures
        match found {
            Some((table, key, value)) => slot_write(statement@) == Some((table, key@, value@)),
            None => slot_write(statement@) is None,
        },
{
    let assign = match statement.as_assign() {
        Some(assign) => assign,
        None => {
            return None;
        },
    };
    proof {
        nodes::assign_node(*assign);
    }
    if assign.prefix || assign.parallel || assign.left.len() != 1 || assign.right.len() != 1 {
        return None;
    }
    proof {
        assert(assign@.left[0] == assign.left@[0]@);
        assert(assign@.right[0] == assign.right@[0]@);
        nodes::lvalue_node(assign.left@[0]);
    }
    match &assign.left[0] {
        LValue::Index(index) => match (index.left.as_local(), find_key(&index.right)) {
            (Some(table), Some(key)) => Some((table, key, &assign.right[0])),
            _ => None,
        },
        _ => None,
    }
}

fn does_write_slot(statement: &Statement, table: RcLocal, key: &SlotKey) -> (result: bool)
    ensures
        result == writes_slot(statement@, table, key@),
{
    let assign = match statement.as_assign() {
        Some(assign) => assign,
        None => {
            return false;
        },
    };
    proof {
        nodes::assign_node(*assign);
    }
    let ghost views = assign@.left;
    let mut index: usize = 0;
    while index < assign.left.len()
        invariant
            index <= assign.left@.len() == views.len(),
            statement@ == StatementView::Assign(assign@),
            views == assign@.left,
            views == LValue::views(assign.left@),
            forall|i: int| 0 <= i < index ==> !targets_slot(#[trigger] views[i], table, key@),
        decreases assign.left.len() - index,
    {
        proof {
            assert(views[index as int] == assign.left@[index as int]@);
            nodes::lvalue_node(assign.left@[index as int]);
        }
        if let LValue::Index(target) = &assign.left[index] {
            if names_slot(target, table, key) {
                proof {
                    let found = statement@->Assign_0.left[index as int];
                    assert(targets_slot(found, table, key@));
                }
                return true;
            }
        }
        index += 1;
    }
    false
}

fn find_table_binding(statement: &Statement, out: &mut Vec<RcLocal>)
    ensures
        final(out)@ == old(out)@ + table_binding(statement@),
{
    proof {
        assert(out@ + Seq::<RcLocal>::empty() =~= out@);
    }
    if let Some(assign) = statement.as_assign() {
        proof {
            nodes::assign_node(*assign);
        }
        if !assign.parallel && assign.left.len() == 1 && assign.right.len() == 1 {
            proof {
                assert(assign@.left[0] == assign.left@[0]@);
                assert(assign@.right[0] == assign.right@[0]@);
                nodes::rvalue_node(assign.right@[0]);
            }
            if let (Some(target), RValue::Table(_)) = (assign.left[0].as_local(), &assign.right[0]) {
                out.push(target);
                proof {
                    assert(out@ =~= old(out)@ + table_binding(statement@));
                }
            }
        }
    }
}

fn is_metatable_setter(callee: &RValue) -> (result: bool)
    ensures
        result == sets_metatable(callee@),
{
    proof {
        nodes::rvalue_node(*callee);
    }
    match callee {
        RValue::Global(global) => spells(global.name(), "setmetatable"),
        RValue::Index(index) => {
            proof {
                nodes::rvalue_node(*index.right);
            }
            match &*index.right {
                RValue::Literal(Literal::String(name)) => spells(name.as_slice(), "setmetatable"),
                _ => false,
            }
        },
        _ => false,
    }
}

fn add_use(uses: &mut Vec<SlotUse>, added: SlotUse)
    ensures
        SlotUse::views(final(uses)@) == SlotUse::views(old(uses)@).push(added@),
{
    let ghost put = added@;
    uses.push(added);
    proof {
        assert(SlotUse::views(uses@) =~= SlotUse::views(old(uses)@).push(put));
    }
}

fn scan_call(call: &Call, uses: &mut Vec<SlotUse>)
    ensures
        SlotUse::views(final(uses)@) == SlotUse::views(old(uses)@) + call_slot_uses(call@),
{
    proof {
        assert(SlotUse::views(uses@) + Seq::<SlotUseView>::empty() =~= SlotUse::views(uses@));
    }
    if !is_metatable_setter(&call.value) {
        return;
    }
    let ghost views = RValue::views(call.arguments@);
    let ghost whole = SlotUse::views(uses@) + opaque_arguments(views, 0);
    let mut index: usize = 0;
    while index < call.arguments.len()
        invariant
            index <= call.arguments@.len() == views.len(),
            views == RValue::views(call.arguments@),
            SlotUse::views(uses@) + opaque_arguments(views, index as int) =~= whole,
        decreases call.arguments.len() - index,
    {
        proof {
            assert(views[index as int] == call.arguments@[index as int]@);
        }
        if let Some(local) = call.arguments[index].as_local() {
            add_use(uses, SlotUse::Opaque(local));
        }
        index += 1;
    }
}

fn scan_rvalue(value: &RValue, uses: &mut Vec<SlotUse>)
    ensures
        SlotUse::views(final(uses)@) == SlotUse::views(old(uses)@) + value@.slot_uses(),
    decreases value@.size(), 0int,
{
    let ghost whole = value@;
    let ghost start = SlotUse::views(uses@);
    proof {
        nodes::rvalue_node(*value);
        model::lemma_children_smaller(whole);
        assert(start + Seq::<SlotUseView>::empty() =~= start);
    }
    match value {
        RValue::Local(local) => {
            add_use(uses, SlotUse::Opaque(*local));
            proof {
                assert(SlotUse::views(uses@) =~= start + whole.slot_uses());
            }
            return;
        },
        RValue::Index(index) => {
            if let Some(table) = index.left.as_local() {
                proof {
                    model::lemma_child_smaller(whole, 1);
                    assert(whole.children()[1] == index.right@);
                }
                match find_key(&index.right) {
                    Some(key) => add_use(uses, SlotUse::Read(table, key)),
                    None => add_use(uses, SlotUse::Opaque(table)),
                }
                scan_rvalue(&index.right, uses);
                proof {
                    assert(SlotUse::views(uses@) =~= start + whole.slot_uses());
                }
                return;
            }
        },
        RValue::Call(call) => scan_call(call, uses),
        RValue::Select(Select::Call(call)) => scan_call(call, uses),
        _ => {},
    }
    scan_rvalues(value.rvalues(), uses);
    proof {
        assert(SlotUse::views(uses@) =~= start + whole.slot_uses());
    }
}

fn scan_rvalues(values: Vec<&RValue>, uses: &mut Vec<SlotUse>)
    ensures
        SlotUse::views(final(uses)@) == SlotUse::views(old(uses)@) + RValueView::slot_uses_from(
            RValue::borrowed(values@),
            0,
        ),
    decreases RValueView::sizes_from(RValue::borrowed(values@), 0), 1int,
{
    let ghost views = RValue::borrowed(values@);
    let ghost whole = SlotUse::views(uses@) + RValueView::slot_uses_from(views, 0);
    let mut index: usize = 0;
    while index < values.len()
        invariant
            index <= values@.len() == views.len(),
            views == RValue::borrowed(values@),
            SlotUse::views(uses@) + RValueView::slot_uses_from(views, index as int) =~= whole,
        decreases values.len() - index,
    {
        proof {
            model::lemma_sizes_member(views, 0, index as int);
        }
        scan_rvalue(values[index], uses);
        index += 1;
    }
}

fn scan_targets(targets: &Vec<LValue>, uses: &mut Vec<SlotUse>)
    ensures
        SlotUse::views(final(uses)@) == SlotUse::views(old(uses)@) + LValueView::slot_uses_from(
            LValue::views(targets@),
            0,
        ),
{
    let ghost views = LValue::views(targets@);
    let ghost whole = SlotUse::views(uses@) + LValueView::slot_uses_from(views, 0);
    let mut index: usize = 0;
    while index < targets.len()
        invariant
            index <= targets@.len() == views.len(),
            views == LValue::views(targets@),
            SlotUse::views(uses@) + LValueView::slot_uses_from(views, index as int) =~= whole,
        decreases targets.len() - index,
    {
        let ghost before = SlotUse::views(uses@);
        proof {
            assert(views[index as int] == targets@[index as int]@);
            nodes::lvalue_node(targets@[index as int]);
            assert(before + Seq::<SlotUseView>::empty() =~= before);
        }
        if let LValue::Index(target) = &targets[index] {
            match target.left.as_local() {
                Some(table) => {
                    if find_key(&target.right).is_none() {
                        add_use(uses, SlotUse::Opaque(table));
                    }
                },
                None => {
                    scan_rvalue(&target.left, uses);
                },
            }
            scan_rvalue(&target.right, uses);
        }
        proof {
            assert(SlotUse::views(uses@) =~= before + views[index as int].slot_uses());
        }
        index += 1;
    }
}

fn scan_all_opaque(locals: &Vec<RcLocal>, uses: &mut Vec<SlotUse>)
    ensures
        SlotUse::views(final(uses)@) == SlotUse::views(old(uses)@) + opaque_uses(locals@),
{
    let mut index: usize = 0;
    while index < locals.len()
        invariant
            index <= locals@.len(),
            SlotUse::views(uses@) =~= SlotUse::views(old(uses)@) + opaque_uses(
                locals@.take(index as int),
            ),
        decreases locals.len() - index,
    {
        add_use(uses, SlotUse::Opaque(locals[index]));
        index += 1;
    }
    proof {
        assert(locals@.take(locals@.len() as int) =~= locals@);
    }
}

fn scan_line(statement: &Statement, uses: &mut Vec<SlotUse>)
    ensures
        SlotUse::views(final(uses)@) == SlotUse::views(old(uses)@) + statement@.line_slot_uses(),
{
    let ghost start = SlotUse::views(uses@);
    proof {
        nodes::statement_node(*statement);
    }
    match statement {
        Statement::Assign(assign) => {
            proof {
                nodes::assign_node(*assign);
            }
            scan_targets(&assign.left, uses);
            scan_rvalues(crate::ast::shape::borrow_all(&assign.right), uses);
        },
        Statement::Call(call) => {
            scan_call(call, uses);
            scan_rvalues(statement.rvalues(), uses);
        },
        Statement::MethodCall(_) | Statement::Return(_) | Statement::If(_) | Statement::While(_)
        | Statement::Repeat(_) | Statement::NumericFor(_) | Statement::GenericFor(_)
        | Statement::Empty(_) | Statement::Comment(_) | Statement::Break(_)
        | Statement::Continue(_) | Statement::Goto(_) | Statement::Label(_) => {
            scan_rvalues(statement.rvalues(), uses);
        },
        _ => {
            scan_all_opaque(&statement.values_read(), uses);
            scan_all_opaque(&statement.values_written(), uses);
        },
    }
    proof {
        assert(SlotUse::views(uses@) =~= start + statement@.line_slot_uses());
    }
}

/// What the statements of a tree say about its tables.
struct Ledger {
    written: Vec<RcLocal>,
    bound: Vec<RcLocal>,
    uses: Vec<SlotUse>,
}

impl Ledger {
    spec fn view(&self) -> SlotFacts {
        SlotFacts {
            written: self.written@,
            bound: self.bound@,
            uses: SlotUse::views(self.uses@),
        }
    }

    fn record_line(&mut self, statement: &Statement)
        ensures
            final(self)@ == old(self)@.and(SlotFacts::of_line(statement@)),
    {
        let mut written = statement.values_written();
        self.written.append(&mut written);
        find_table_binding(statement, &mut self.bound);
        scan_line(statement, &mut self.uses);
        proof {
            assert(self@ =~= old(self)@.and(SlotFacts::of_line(statement@)));
        }
    }

    fn record(&mut self, statement: &Statement)
        ensures
            final(self)@ == old(self)@.and(statement@.slot_facts()),
        decreases statement@.size(), 0int, 0int,
    {
        let ghost whole = statement@;
        let ghost start = self@;
        proof {
            nodes::statement_node(*statement);
            model::lemma_statement_parts(whole);
        }
        self.record_line(statement);
        if matches!(statement, Statement::Do(_)) {
            return;
        }
        let blocks = statement.blocks();
        let ghost views = Block::borrowed(blocks@);
        let mut index: usize = 0;
        proof {
            assert(self@.and(StatementView::block_slot_facts(views, 0)) =~= start.and(
                whole.slot_facts(),
            ));
        }
        while index < blocks.len()
            invariant
                index <= blocks@.len() == views.len(),
                views == Block::borrowed(blocks@),
                whole == statement@,
                StatementView::block_sizes_from(views, 0) < whole.size(),
                self@.and(StatementView::block_slot_facts(views, index as int)) == start.and(
                    whole.slot_facts(),
                ),
            decreases blocks.len() - index,
        {
            let ghost before = self@;
            proof {
                model::lemma_block_sizes_member(views, 0, index as int);
            }
            self.record_block(blocks[index]);
            proof {
                let rest = StatementView::block_slot_facts(views, index + 1);
                assert(self@.and(rest) =~= before.and(
                    StatementView::slot_facts_from(views[index as int], 0).and(rest),
                ));
            }
            index += 1;
        }
        proof {
            assert(self@.and(SlotFacts::none()) =~= self@);
        }
    }

    fn record_block(&mut self, block: &Block)
        ensures
            final(self)@ == old(self)@.and(StatementView::slot_facts_from(block@, 0)),
        decreases StatementView::sizes_from(block@, 0), 1int, 0int,
    {
        let ghost views = block@;
        let ghost whole = self@.and(StatementView::slot_facts_from(views, 0));
        let mut index: usize = 0;
        while index < block.0.len()
            invariant
                index <= block.0@.len() == views.len(),
                views == block@,
                self@.and(StatementView::slot_facts_from(views, index as int)) == whole,
            decreases block.0.len() - index,
        {
            let ghost before = self@;
            proof {
                model::lemma_statement_sizes_member(views, 0, index as int);
                assert(views[index as int] == block.0@[index as int]@);
            }
            self.record(&block.0[index]);
            proof {
                let rest = StatementView::slot_facts_from(views, index + 1);
                assert(self@.and(rest) =~= before.and(
                    views[index as int].slot_facts().and(rest),
                ));
            }
            index += 1;
        }
        proof {
            assert(self@.and(SlotFacts::none()) =~= self@);
        }
    }

    /// The locals written more than once.
    fn find_repeated(&self) -> (repeated: FxHashSet<u64>)
        ensures
            forall|local: RcLocal| #[trigger]
                repeated@.contains(local.id) == is_repeated(self@.written, local),
    {
        let ghost list = self.written@;
        let mut seen = empty_set();
        let mut repeated = empty_set();
        let mut index: usize = 0;
        while index < self.written.len()
            invariant
                index <= self.written@.len(),
                list == self.written@,
                forall|local: RcLocal| #[trigger]
                    seen@.contains(local.id) == list.take(index as int).contains(local),
                forall|local: RcLocal| #[trigger]
                    repeated@.contains(local.id) == is_repeated(list.take(index as int), local),
            decreases self.written.len() - index,
        {
            let local = self.written[index];
            let ghost less = list.take(index as int);
            let ghost more = list.take(index + 1);
            let ghost held = seen@;
            let ghost before = repeated@;
            let fresh = insert_member(&mut seen, local.id);
            if !fresh {
                let added = insert_member(&mut repeated, local.id);
            }
            proof {
                assert(more =~= less.push(local));
                assert(held.contains(local.id) == less.contains(local));
                assert forall|other: RcLocal| #[trigger] seen@.contains(other.id)
                    == more.contains(other) by {
                    assert(held.contains(other.id) == less.contains(other));
                    if less.contains(other) {
                        let k = choose|k: int| 0 <= k < less.len() && less[k] == other;
                        assert(more[k] == other);
                    }
                    if other.id == local.id {
                        assert(other == local);
                        assert(more[index as int] == other);
                    }
                }
                assert forall|other: RcLocal| #[trigger] repeated@.contains(other.id)
                    == is_repeated(more, other) by {
                    assert(before.contains(other.id) == is_repeated(less, other));
                    if is_repeated(less, other) {
                        let (i, j) = choose|i: int, j: int|
                            0 <= i < j < less.len() && #[trigger] less[i] == other
                                && #[trigger] less[j] == other;
                        assert(more[i] == other && more[j] == other);
                    }
                    if other.id == local.id {
                        assert(other == local);
                        if less.contains(other) {
                            let k = choose|k: int| 0 <= k < less.len() && less[k] == other;
                            assert(more[k] == other && more[index as int] == other);
                        }
                    }
                    if is_repeated(more, other) {
                        let (i, j) = choose|i: int, j: int|
                            0 <= i < j < more.len() && #[trigger] more[i] == other
                                && #[trigger] more[j] == other;
                        if j < index {
                            assert(less[i] == other && less[j] == other);
                        } else {
                            assert(less[i] == other);
                        }
                    }
                }
            }
            index += 1;
        }
        proof {
            assert(list.take(list.len() as int) =~= list);
        }
        repeated
    }

    /// The locals used opaquely.
    fn find_opaque(&self) -> (opaque: FxHashSet<u64>)
        ensures
            forall|local: RcLocal| #[trigger]
                opaque@.contains(local.id) == self@.uses.contains(SlotUseView::Opaque(local)),
    {
        let ghost list = SlotUse::views(self.uses@);
        let mut opaque = empty_set();
        let mut index: usize = 0;
        while index < self.uses.len()
            invariant
                index <= self.uses@.len() == list.len(),
                list == SlotUse::views(self.uses@),
                forall|local: RcLocal| #[trigger]
                    opaque@.contains(local.id) == list.take(index as int).contains(
                        SlotUseView::Opaque(local),
                    ),
            decreases self.uses.len() - index,
        {
            let ghost less = list.take(index as int);
            let ghost more = list.take(index + 1);
            let ghost before = opaque@;
            proof {
                assert(list[index as int] == self.uses@[index as int]@);
                assert(more =~= less.push(list[index as int]));
            }
            if let SlotUse::Opaque(local) = &self.uses[index] {
                let fresh = insert_member(&mut opaque, local.id);
            }
            proof {
                assert forall|other: RcLocal| #[trigger] opaque@.contains(other.id)
                    == more.contains(SlotUseView::Opaque(other)) by {
                    let sought = SlotUseView::Opaque(other);
                    assert(before.contains(other.id) == less.contains(sought));
                    if less.contains(sought) {
                        let k = choose|k: int| 0 <= k < less.len() && less[k] == sought;
                        assert(more[k] == sought);
                    }
                    if list[index as int] == sought {
                        assert(more[index as int] == sought);
                    }
                    if let SlotUseView::Opaque(local) = list[index as int] {
                        if local.id == other.id {
                            assert(local == other);
                        }
                    }
                }
            }
            index += 1;
        }
        proof {
            assert(list.take(list.len() as int) =~= list);
        }
        opaque
    }

    /// The tables that can be folded.
    fn find_foldable(&self, protected: &FxHashSet<u64>) -> (foldable: FxHashSet<u64>)
        ensures
            forall|local: RcLocal| #[trigger]
                foldable@.contains(local.id) == self@.is_foldable(protected@, local),
    {
        let repeated = self.find_repeated();
        let opaque = self.find_opaque();
        let ghost list = self.bound@;
        let mut foldable = empty_set();
        let mut index: usize = 0;
        while index < self.bound.len()
            invariant
                index <= self.bound@.len(),
                list == self.bound@,
                forall|local: RcLocal| #[trigger]
                    repeated@.contains(local.id) == is_repeated(self@.written, local),
                forall|local: RcLocal| #[trigger]
                    opaque@.contains(local.id) == self@.uses.contains(SlotUseView::Opaque(local)),
                forall|local: RcLocal| #[trigger]
                    foldable@.contains(local.id) == (list.take(index as int).contains(local)
                        && !protected@.contains(local.id) && !repeated@.contains(local.id)
                        && !opaque@.contains(local.id)),
            decreases self.bound.len() - index,
        {
            let local = self.bound[index];
            let ghost less = list.take(index as int);
            let ghost more = list.take(index + 1);
            let ghost before = foldable@;
            if !has_member(protected, local.id) && !has_member(&repeated, local.id)
                && !has_member(&opaque, local.id) {
                let fresh = insert_member(&mut foldable, local.id);
            }
            proof {
                assert(more =~= less.push(local));
                assert forall|other: RcLocal| #[trigger] foldable@.contains(other.id) == (
                more.contains(other) && !protected@.contains(other.id) && !repeated@.contains(
                    other.id,
                ) && !opaque@.contains(other.id)) by {
                    assert(before.contains(other.id) == (less.contains(other)
                        && !protected@.contains(other.id) && !repeated@.contains(other.id)
                        && !opaque@.contains(other.id)));
                    if less.contains(other) {
                        let k = choose|k: int| 0 <= k < less.len() && less[k] == other;
                        assert(more[k] == other);
                    }
                    if other.id == local.id {
                        assert(other == local);
                        assert(more[index as int] == other);
                    }
                }
            }
            index += 1;
        }
        proof {
            assert(list.take(list.len() as int) =~= list);
            assert forall|local: RcLocal| #[trigger] foldable@.contains(local.id)
                == self@.is_foldable(protected@, local) by {
                assert(repeated@.contains(local.id) == is_repeated(self@.written, local));
                assert(opaque@.contains(local.id) == self@.uses.contains(
                    SlotUseView::Opaque(local),
                ));
            }
        }
        foldable
    }
}

/// The models of reads.
spec fn slot_views(reads: Seq<(RcLocal, SlotKey)>) -> Seq<Slot> {
    Seq::new(reads.len(), |i: int| (reads[i].0, reads[i].1@))
}

/// The reads among uses.
fn take_reads(uses: Vec<SlotUse>) -> (reads: Vec<(RcLocal, SlotKey)>)
    ensures
        slot_views(reads@) == reads_in(SlotUse::views(uses@), 0),
{
    let ghost views = SlotUse::views(uses@);
    let ghost whole = reads_in(views, 0);
    let count: usize = uses.len();
    let mut rest = uses;
    let mut reads: Vec<(RcLocal, SlotKey)> = Vec::new();
    let mut index: usize = 0;
    proof {
        assert(slot_views(reads@) + whole =~= whole);
    }
    while index < count
        invariant
            index <= count == views.len(),
            rest@.len() == count - index,
            SlotUse::views(rest@) =~= views.skip(index as int),
            whole == slot_views(reads@) + reads_in(views, index as int),
        decreases count - index,
    {
        let ghost before = SlotUse::views(rest@);
        let ghost held = slot_views(reads@);
        let ghost fewer = reads_in(views, index + 1);
        let used = rest.remove(0);
        proof {
            assert(before[0] == views[index as int]);
            assert(before[0] == used@);
            assert(SlotUse::views(rest@) =~= before.skip(1));
            assert(before.skip(1) =~= views.skip(index + 1));
        }
        if let SlotUse::Read(table, key) = used {
            let ghost slot = (table, key@);
            reads.push((table, key));
            proof {
                assert(slot_views(reads@) =~= held.push(slot));
                assert(slot_views(reads@) + fewer =~= held + (seq![slot] + fewer));
            }
        }
        index += 1;
    }
    proof {
        assert(slot_views(reads@) + Seq::<Slot>::empty() =~= slot_views(reads@));
    }
    reads
}

/// Whether a slot is among reads exactly once.
fn is_read_once(reads: &Vec<(RcLocal, SlotKey)>, table: RcLocal, key: &SlotKey) -> (result: bool)
    ensures
        result == (read_count(slot_views(reads@), 0, (table, key@)) == 1),
{
    let ghost views = slot_views(reads@);
    let ghost slot = (table, key@);
    let mut seen = false;
    let mut index: usize = 0;
    while index < reads.len()
        invariant
            index <= reads@.len() == views.len(),
            views == slot_views(reads@),
            slot == (table, key@),
            read_count(views, 0, slot) == read_count(views, index as int, slot) + (if seen {
                1nat
            } else {
                0nat
            }),
        decreases reads.len() - index,
    {
        proof {
            assert(views[index as int] == (reads@[index as int].0, reads@[index as int].1@));
        }
        if reads[index].0 == table && reads[index].1.same(key) {
            if seen {
                return false;
            }
            seen = true;
        }
        index += 1;
    }
    seen
}

proof fn lemma_without_read(reads: Seq<Slot>, from: int, slot: Slot, found: int)
    requires
        0 <= from <= found < reads.len(),
        reads[found] == slot,
        forall|i: int| from <= i < found ==> reads[i] != slot,
    ensures
        without_read(reads, from, slot) == reads.remove(found).skip(from),
    decreases found - from,
{
    if from < found {
        lemma_without_read(reads, from + 1, slot, found);
        assert(without_read(reads, from, slot) =~= reads.remove(found).skip(from));
    } else {
        assert(reads.skip(from + 1) =~= reads.remove(found).skip(from));
    }
}

proof fn lemma_no_read(reads: Seq<Slot>, from: int, slot: Slot)
    requires
        0 <= from <= reads.len(),
        forall|i: int| from <= i < reads.len() ==> reads[i] != slot,
    ensures
        without_read(reads, from, slot) == reads.skip(from),
    decreases reads.len() - from,
{
    if from < reads.len() {
        lemma_no_read(reads, from + 1, slot);
        assert(seq![reads[from]] + reads.skip(from + 1) =~= reads.skip(from));
    } else {
        assert(reads.skip(from) =~= Seq::empty());
    }
}

fn remove_read(reads: &mut Vec<(RcLocal, SlotKey)>, table: RcLocal, key: &SlotKey)
    ensures
        slot_views(final(reads)@) == without_read(slot_views(old(reads)@), 0, (table, key@)),
{
    let ghost views = slot_views(reads@);
    let ghost slot = (table, key@);
    let mut index: usize = 0;
    while index < reads.len()
        invariant
            index <= reads@.len() == views.len(),
            reads@ == old(reads)@,
            views == slot_views(reads@),
            slot == (table, key@),
            forall|i: int| 0 <= i < index ==> views[i] != slot,
        decreases reads.len() - index,
    {
        proof {
            assert(views[index as int] == (reads@[index as int].0, reads@[index as int].1@));
        }
        if reads[index].0 == table && reads[index].1.same(key) {
            proof {
                lemma_without_read(views, 0, slot, index as int);
            }
            let removed = reads.remove(index);
            proof {
                assert(slot_views(reads@) =~= views.remove(index as int));
                assert(views.remove(index as int).skip(0) =~= views.remove(index as int));
            }
            return;
        }
        index += 1;
    }
    proof {
        lemma_no_read(views, 0, slot);
        assert(views.skip(0) =~= views);
    }
}

/// A count, as far as it matters whether it is more than one.
spec fn few(count: nat) -> nat {
    if count > 2 {
        2
    } else {
        count
    }
}

fn add_few(left: u8, right: u8) -> (sum: u8)
    requires
        left <= 2,
        right <= 2,
    ensures
        sum as nat == few((left + right) as nat),
{
    if left + right > 2 {
        2
    } else {
        left + right
    }
}

fn count_in_value(value: &RValue, table: RcLocal, key: &SlotKey) -> (count: u8)
    ensures
        count as nat == few(value@.slot_reads(table, key@)),
    decreases value@.size(), 0int,
{
    let ghost whole = value@;
    proof {
        nodes::rvalue_node(*value);
        model::lemma_children_smaller(whole);
    }
    if let RValue::Index(index) = value {
        if names_slot(index, table, key) {
            return 1;
        }
    }
    count_in_values(value.rvalues(), table, key)
}

fn count_in_values(values: Vec<&RValue>, table: RcLocal, key: &SlotKey) -> (count: u8)
    ensures
        count as nat == few(
            RValueView::slot_reads_from(RValue::borrowed(values@), 0, table, key@),
        ),
    decreases RValueView::sizes_from(RValue::borrowed(values@), 0), 1int,
{
    let ghost views = RValue::borrowed(values@);
    let mut count: u8 = 0;
    let mut index: usize = values.len();
    while index > 0
        invariant
            index <= values@.len() == views.len(),
            views == RValue::borrowed(values@),
            count as nat == few(RValueView::slot_reads_from(views, index as int, table, key@)),
        decreases index,
    {
        index -= 1;
        proof {
            model::lemma_sizes_member(views, 0, index as int);
        }
        let more = count_in_value(values[index], table, key);
        count = add_few(more, count);
    }
    count
}

fn count_in_targets(targets: &Vec<LValue>, table: RcLocal, key: &SlotKey) -> (count: u8)
    ensures
        count as nat == few(
            LValueView::slot_reads_from(LValue::views(targets@), 0, table, key@),
        ),
{
    let ghost views = LValue::views(targets@);
    let mut count: u8 = 0;
    let mut index: usize = targets.len();
    while index > 0
        invariant
            index <= targets@.len() == views.len(),
            views == LValue::views(targets@),
            count as nat == few(LValueView::slot_reads_from(views, index as int, table, key@)),
        decreases index,
    {
        index -= 1;
        proof {
            assert(views[index as int] == targets@[index as int]@);
            nodes::lvalue_node(targets@[index as int]);
        }
        if let LValue::Index(target) = &targets[index] {
            if !names_slot(target, table, key) {
                let left = count_in_value(&target.left, table, key);
                let right = count_in_value(&target.right, table, key);
                count = add_few(add_few(left, right), count);
            }
        }
    }
    count
}

fn count_reads(statement: &Statement, table: RcLocal, key: &SlotKey) -> (count: u8)
    ensures
        count as nat == few(statement@.slot_reads(table, key@)),
{
    proof {
        nodes::statement_node(*statement);
    }
    match statement {
        Statement::Assign(assign) => {
            proof {
                nodes::assign_node(*assign);
            }
            let left = count_in_targets(&assign.left, table, key);
            let right = count_in_values(
                crate::ast::shape::borrow_all(&assign.right),
                table,
                key,
            );
            add_few(left, right)
        },
        _ => count_in_values(statement.rvalues(), table, key),
    }
}

fn has_far_target(targets: &Vec<LValue>) -> (result: bool)
    ensures
        result == exists|i: int|
            0 <= i < targets@.len() && !(#[trigger] LValue::views(targets@)[i] is Local),
{
    let mut index: usize = 0;
    while index < targets.len()
        invariant
            index <= targets@.len(),
            forall|i: int|
                0 <= i < index ==> (#[trigger] LValue::views(targets@)[i] is Local),
        decreases targets.len() - index,
    {
        proof {
            assert(LValue::views(targets@)[index as int] == targets@[index as int]@);
        }
        if targets[index].as_local().is_none() {
            assert(!(LValue::views(targets@)[index as int] is Local));
            return true;
        }
        index += 1;
    }
    false
}

fn blocks_window(statement: &Statement) -> (result: bool)
    ensures
        result == statement@.ends_window(),
{
    proof {
        nodes::statement_node(*statement);
    }
    match statement {
        Statement::Empty(_) | Statement::Comment(_) => false,
        Statement::Assign(assign) => {
            proof {
                nodes::assign_node(*assign);
            }
            has_far_target(&assign.left) || statement.has_side_effects()
        },
        _ => true,
    }
}

fn find_read(
    block: &Vec<Statement>,
    table: RcLocal,
    key: &SlotKey,
    effectful: bool,
    at: usize,
    end: usize,
) -> (found: Option<usize>)
    requires
        at <= end <= block@.len(),
    ensures
        match read_at(
            Statement::views(block@),
            (table, key@),
            effectful,
            at as int,
            end as int,
        ) {
            Some(read) => found == Some(read as usize) && 0 <= read <= usize::MAX,
            None => found is None,
        },
{
    let ghost views = Statement::views(block@);
    let ghost slot = (table, key@);
    let ghost whole = read_at(views, slot, effectful, at as int, end as int);
    let mut index: usize = at;
    while index < end
        invariant
            at <= index <= end <= block@.len() == views.len(),
            views == Statement::views(block@),
            slot == (table, key@),
            whole == read_at(views, slot, effectful, at as int, end as int),
            whole == read_at(views, slot, effectful, index as int, end as int),
        decreases end - index,
    {
        let statement = &block[index];
        proof {
            assert(views[index as int] == block@[index as int]@);
            nodes::statement_node(*statement);
        }
        if matches!(
            statement,
            Statement::If(_) | Statement::While(_) | Statement::Repeat(_)
            | Statement::NumericFor(_) | Statement::GenericFor(_)
        ) {
            return None;
        }
        let reads = count_reads(statement, table, key);
        if reads > 1 {
            return None;
        }
        if reads == 1 {
            return Some(index);
        }
        if blocks_window(statement) {
            return None;
        }
        if effectful && statement.values().len() > 0 {
            return None;
        }
        index += 1;
    }
    None
}

fn put_in_value(value: RValue, table: RcLocal, key: &SlotKey, put: &RValue) -> (done: RValue)
    ensures
        done@ == value@.with_slot(table, key@, put@),
    decreases value@.size(), 0int,
{
    let ghost whole = value@;
    proof {
        nodes::rvalue_node(value);
        model::lemma_children_smaller(whole);
    }
    if let RValue::Index(index) = &value {
        if names_slot(index, table, key) {
            return put.clone();
        }
    }
    if matches!(value, RValue::Closure(_)) {
        return value;
    }
    let (shell, operands) = value.decompose();
    proof {
        lemma_slot_count(whole.children(), 0, table, key@, put@);
    }
    let operands = put_in_values(operands, table, key, put);
    let ghost given = RValue::views(operands@);
    proof {
        assert(operands@.len() == given.len());
        assert(whole.takes(operands@.len() as int));
        assert(shell@.takes(operands@.len() as int));
    }
    let done = shell.compose(operands);
    proof {
        assert(done@ == whole.with_children(given));
    }
    done
}

proof fn lemma_slot_count(
    values: Seq<RValueView>,
    from: int,
    table: RcLocal,
    key: SlotKeyView,
    put: RValueView,
)
    requires
        0 <= from <= values.len(),
    ensures
        RValueView::with_slot_from(values, from, table, key, put).len() == values.len() - from,
    decreases values.len() - from,
{
    if from < values.len() {
        lemma_slot_count(values, from + 1, table, key, put);
    }
}

fn put_in_values(values: Vec<RValue>, table: RcLocal, key: &SlotKey, put: &RValue) -> (done: Vec<
    RValue,
>)
    ensures
        RValue::views(done@) == RValueView::with_slot_from(
            RValue::views(values@),
            0,
            table,
            key@,
            put@,
        ),
    decreases RValueView::sizes_from(RValue::views(values@), 0), 1int,
{
    let ghost views = RValue::views(values@);
    let ghost whole = RValueView::with_slot_from(views, 0, table, key@, put@);
    let count: usize = values.len();
    let mut rest = values;
    let mut done: Vec<RValue> = Vec::new();
    let mut index: usize = 0;
    proof {
        assert(RValue::views(done@) + whole =~= whole);
    }
    while index < count
        invariant
            index <= count == views.len(),
            rest@.len() == count - index,
            RValue::views(rest@) =~= views.skip(index as int),
            views == RValue::views(values@),
            whole == RValue::views(done@) + RValueView::with_slot_from(
                views,
                index as int,
                table,
                key@,
                put@,
            ),
        decreases count - index,
    {
        let ghost before = RValue::views(rest@);
        let ghost held = RValue::views(done@);
        let value = rest.remove(0);
        proof {
            assert(before[0] == views[index as int]);
            assert(RValue::views(rest@) =~= before.skip(1));
            model::lemma_sizes_member(views, 0, index as int);
        }
        let value = put_in_value(value, table, key, put);
        let ghost added = value@;
        done.push(value);
        proof {
            let fewer = RValueView::with_slot_from(views, index + 1, table, key@, put@);
            assert(RValue::views(done@) + fewer =~= held + (seq![added] + fewer));
        }
        index += 1;
    }
    proof {
        assert(RValue::views(done@) + Seq::<RValueView>::empty() =~= RValue::views(done@));
    }
    done
}

fn put_in_statement(statement: Statement, table: RcLocal, key: &SlotKey, put: &RValue) -> (done:
    Statement)
    ensures
        done@ == statement@.with_slot(table, key@, put@),
{
    let ghost whole = statement@;
    let (shell, roots, blocks) = statement.decompose();
    proof {
        lemma_slot_count(whole.roots(), 0, table, key@, put@);
    }
    let roots = put_in_values(roots, table, key, put);
    let ghost given = RValue::views(roots@);
    proof {
        assert(roots@.len() == given.len());
        assert(whole.takes(roots@.len() as int));
        assert(blocks@.len() == Block::views(blocks@).len());
        shape_laws::given_roots(whole, given);
        shape_laws::same_blocks(whole.with_roots(given));
    }
    shell.compose(roots, blocks)
}

/// Folds slots, with what can be folded and the reads left.
struct SlotFolder {
    foldable: FxHashSet<u64>,
    reads: Vec<(RcLocal, SlotKey)>,
    count: usize,
}

impl SlotFolder {
    /// Whether this has the notes given.
    spec fn has(&self, notes: SlotNotes) -> bool {
        &&& forall|local: RcLocal| #[trigger]
            self.foldable@.contains(local.id) == (notes.foldable)(local)
        &&& slot_views(self.reads@) == notes.reads
    }

    fn find_fold(&self, block: &Vec<Statement>, at: usize, Ghost(notes): Ghost<SlotNotes>) -> (found:
        Option<(RcLocal, SlotKey, RValue, usize)>)
        requires
            self.has(notes),
            at < block@.len(),
        ensures
            match found {
                Some((table, key, value, read)) => fold_at(
                    Statement::views(block@),
                    at as int,
                    notes,
                ) == Some(((table, key@), value@, read as int)),
                None => fold_at(Statement::views(block@), at as int, notes) is None,
            },
    {
        let ghost views = Statement::views(block@);
        proof {
            assert(views[at as int] == block@[at as int]@);
        }
        let (table, key, value) = match find_slot_write(&block[at]) {
            Some(found) => found,
            None => {
                return None;
            },
        };
        proof {
            assert(self.foldable@.contains(table.id) == (notes.foldable)(table));
        }
        if !has_member(&self.foldable, table.id) || has_local(&value.values_read(), table) {
            return None;
        }
        let length: usize = block.len();
        let end: usize = if SLOT_SCAN_LIMIT + 1 < length && at < length - (SLOT_SCAN_LIMIT + 1) {
            at + SLOT_SCAN_LIMIT + 1
        } else {
            length
        };
        proof {
            assert(end == scan_end(at as int, length as int));
            lemma_read_at(
                views,
                (table, key@),
                value@.has_side_effects(),
                at + 1,
                end as int,
            );
        }
        match find_read(block, table, &key, value.has_side_effects(), at + 1, end) {
            Some(read) => {
                proof {
                    assert(views[read as int] == block@[read as int]@);
                }
                if does_write_slot(&block[read], table, &key) || is_read_once(
                    &self.reads,
                    table,
                    &key,
                ) {
                    Some((table, key, value.clone(), read))
                } else {
                    None
                }
            },
            None => None,
        }
    }

    fn fold_statement(&mut self, block: Vec<Statement>, at: usize, Ghost(notes): Ghost<SlotNotes>) -> (done:
        Vec<Statement>)
        requires
            old(self).has(notes),
        ensures
            ({
                let (after, reads, count) = folded_at(
                    Statement::views(block@),
                    at as int,
                    notes,
                    old(self).count,
                );
                &&& Statement::views(done@) == after
                &&& final(self).has(SlotNotes { reads, ..notes })
                &&& final(self).count == count
            }),
    {
        let ghost whole = folded_at(Statement::views(block@), at as int, notes, self.count);
        let ghost mut held = notes;
        let mut rest = block;
        while at < rest.len()
            invariant
                whole == folded_at(
                    Statement::views(block@),
                    at as int,
                    notes,
                    old(self).count,
                ),
                self.has(held),
                held.foldable == notes.foldable,
                whole == folded_at(Statement::views(rest@), at as int, held, self.count),
            decreases rest@.len(),
        {
            let ghost views = Statement::views(rest@);
            proof {
                assert(views.len() == rest@.len());
                lemma_fold_shortens(views, at as int, held);
            }
            match self.find_fold(&rest, at, Ghost(held)) {
                Some((table, key, value, read)) => {
                    let statement = rest.remove(read);
                    let ghost without = Statement::views(rest@);
                    proof {
                        assert(without =~= views.remove(read as int));
                        assert(views[read as int] == statement@);
                    }
                    let statement = put_in_statement(statement, table, &key, &value);
                    let ghost put = statement@;
                    rest.insert(read, statement);
                    proof {
                        assert(Statement::views(rest@) =~= views.update(read as int, put));
                    }
                    let taken = rest.remove(at);
                    proof {
                        assert(Statement::views(rest@) =~= with_fold(
                            views,
                            at as int,
                            (table, key@),
                            value@,
                            read as int,
                        ));
                    }
                    remove_read(&mut self.reads, table, &key);
                    self.count = bump(self.count);
                    proof {
                        held = SlotNotes {
                            reads: without_read(held.reads, 0, (table, key@)),
                            ..held
                        };
                    }
                },
                None => {
                    return rest;
                },
            }
        }
        rest
    }

    fn fold_block(&mut self, block: Vec<Statement>, Ghost(notes): Ghost<SlotNotes>) -> (done: Block)
        requires
            old(self).has(notes),
        ensures
            ({
                let (after, reads, count) = folded_before(
                    Statement::views(block@),
                    block@.len() as int,
                    notes,
                    old(self).count,
                );
                &&& done@ == after
                &&& final(self).has(SlotNotes { reads, ..notes })
                &&& final(self).count == count
            }),
    {
        let ghost whole = folded_before(
            Statement::views(block@),
            block@.len() as int,
            notes,
            self.count,
        );
        let ghost mut held = notes;
        let mut at: usize = block.len();
        let mut block = block;
        while at > 0
            invariant
                self.has(held),
                held.foldable == notes.foldable,
                whole == folded_before(Statement::views(block@), at as int, held, self.count),
            decreases at,
        {
            at -= 1;
            let ghost (next, reads, more) = folded_at(
                Statement::views(block@),
                at as int,
                held,
                self.count,
            );
            block = self.fold_statement(block, at, Ghost(held));
            proof {
                held = SlotNotes { reads, ..held };
            }
        }
        Block(block)
    }

    fn fold_nested(&mut self, statement: Statement, Ghost(notes): Ghost<SlotNotes>) -> (done:
        Statement)
        requires
            old(self).has(notes),
        ensures
            ({
                let (after, reads, count) = statement@.folded(notes, old(self).count);
                &&& done@ == after
                &&& final(self).has(SlotNotes { reads, ..notes })
                &&& final(self).count == count
            }),
        decreases statement@.size(), 0int, 0int,
    {
        let ghost whole = statement@;
        let ghost start = self.count;
        proof {
            nodes::statement_node(statement);
            model::lemma_statement_parts(whole);
        }
        if matches!(statement, Statement::Do(_)) {
            return statement;
        }
        let (shell, roots, blocks) = statement.decompose();
        proof {
            lemma_folded_count(whole.blocks(), 0, notes, start);
        }
        let blocks = self.fold_all(blocks, Ghost(notes));
        proof {
            shape_laws::same_roots(whole);
            assert(roots@.len() == whole.roots().len());
            assert(blocks@.len() == Block::views(blocks@).len());
            shape_laws::given_roots(whole, whole.roots());
        }
        shell.compose(roots, blocks)
    }

    fn fold_all(&mut self, blocks: Vec<Block>, Ghost(notes): Ghost<SlotNotes>) -> (done: Vec<Block>)
        requires
            old(self).has(notes),
        ensures
            ({
                let (after, reads, count) = StatementView::folded_blocks(
                    Block::views(blocks@),
                    0,
                    notes,
                    old(self).count,
                );
                &&& Block::views(done@) == after
                &&& final(self).has(SlotNotes { reads, ..notes })
                &&& final(self).count == count
            }),
        decreases StatementView::block_sizes_from(Block::views(blocks@), 0), 3int, blocks@.len(),
    {
        let ghost views = Block::views(blocks@);
        let ghost whole = StatementView::folded_blocks(views, 0, notes, self.count);
        let ghost mut held = notes;
        let count: usize = blocks.len();
        let mut rest = blocks;
        let mut done: Vec<Block> = Vec::new();
        let mut index: usize = 0;
        proof {
            assert(Block::views(done@) + whole.0 =~= whole.0);
        }
        while index < count
            invariant
                index <= count == views.len(),
                rest@.len() == count - index,
                Block::views(rest@) =~= views.skip(index as int),
                views == Block::views(blocks@),
                self.has(held),
                held.foldable == notes.foldable,
                ({
                    let (remaining, reads, most) = StatementView::folded_blocks(
                        views,
                        index as int,
                        held,
                        self.count,
                    );
                    whole == (Block::views(done@) + remaining, reads, most)
                }),
            decreases count - index,
        {
            let ghost before = Block::views(rest@);
            let ghost kept = Block::views(done@);
            let ghost (first, reads, more) = StatementView::folded_block(
                views[index as int],
                held,
                self.count,
            );
            let block = rest.remove(0);
            proof {
                assert(before[0] == views[index as int]);
                assert(Block::views(rest@) =~= before.skip(1));
                model::lemma_block_sizes_member(views, 0, index as int);
            }
            let block = self.fold_tree(block, Ghost(held));
            let ghost put = block@;
            done.push(block);
            proof {
                held = SlotNotes { reads, ..held };
                let (fewer, _, _) = StatementView::folded_blocks(
                    views,
                    index + 1,
                    held,
                    self.count,
                );
                assert(Block::views(done@) + fewer =~= kept + (seq![put] + fewer));
            }
            index += 1;
        }
        proof {
            assert(Block::views(done@) + Seq::<Seq<StatementView>>::empty() =~= Block::views(
                done@,
            ));
        }
        done
    }

    fn fold_tree(&mut self, block: Block, Ghost(notes): Ghost<SlotNotes>) -> (done: Block)
        requires
            old(self).has(notes),
        ensures
            ({
                let (after, reads, count) = StatementView::folded_block(
                    block@,
                    notes,
                    old(self).count,
                );
                &&& done@ == after
                &&& final(self).has(SlotNotes { reads, ..notes })
                &&& final(self).count == count
            }),
        decreases StatementView::sizes_from(block@, 0), 2int, 0int,
    {
        let ghost views = block@;
        let ghost whole = StatementView::folded_from(views, 0, notes, self.count);
        let ghost mut held = notes;
        let mut rest = block.0;
        let count: usize = rest.len();
        let mut done: Vec<Statement> = Vec::new();
        let mut index: usize = 0;
        proof {
            assert(Statement::views(done@) + whole.0 =~= whole.0);
        }
        while index < count
            invariant
                index <= count == views.len(),
                rest@.len() == count - index,
                Statement::views(rest@) =~= views.skip(index as int),
                views == block@,
                self.has(held),
                held.foldable == notes.foldable,
                ({
                    let (remaining, reads, most) = StatementView::folded_from(
                        views,
                        index as int,
                        held,
                        self.count,
                    );
                    whole == (Statement::views(done@) + remaining, reads, most)
                }),
            decreases count - index,
        {
            let ghost before = Statement::views(rest@);
            let ghost kept = Statement::views(done@);
            let ghost (first, reads, more) = views[index as int].folded(held, self.count);
            let statement = rest.remove(0);
            proof {
                assert(before[0] == views[index as int]);
                assert(Statement::views(rest@) =~= before.skip(1));
                model::lemma_statement_sizes_member(views, 0, index as int);
            }
            let statement = self.fold_nested(statement, Ghost(held));
            let ghost put = statement@;
            done.push(statement);
            proof {
                held = SlotNotes { reads, ..held };
                let (fewer, _, _) = StatementView::folded_from(
                    views,
                    index + 1,
                    held,
                    self.count,
                );
                assert(Statement::views(done@) + fewer =~= kept + (seq![put] + fewer));
            }
            index += 1;
        }
        proof {
            assert(Statement::views(done@) + Seq::<StatementView>::empty() =~= Statement::views(
                done@,
            ));
            assert(done@.len() == Statement::views(done@).len());
        }
        self.fold_block(done, Ghost(held))
    }
}

proof fn lemma_folded_count(
    blocks: Seq<Seq<StatementView>>,
    from: int,
    notes: SlotNotes,
    count: usize,
)
    requires
        0 <= from <= blocks.len(),
    ensures
        StatementView::folded_blocks(blocks, from, notes, count).0.len() == blocks.len() - from,
    decreases blocks.len() - from,
{
    if from < blocks.len() {
        let (first, reads, more) = StatementView::folded_block(blocks[from], notes, count);
        lemma_folded_count(blocks, from + 1, SlotNotes { reads, ..notes }, more);
    }
}

/// Folds constant table slots into their single read, and tells how many.
///
/// `protected` names locals this block cannot see every write to — incoming
/// upvalues and parameters. They are never folded.
pub fn fold_table_slots(block: Block, protected: &Vec<RcLocal>) -> (result: (Block, usize))
    ensures
        ({
            let (folded, reads, count) = StatementView::folded_block(
                block@,
                notes_of(block@, protected@),
                0,
            );
            result.0@ == folded && result.1 == count
        }),
{
    let ghost notes = notes_of(block@, protected@);
    let mut held = empty_set();
    add_all(protected, &mut held);
    collect_reference_captures(&block, &mut held);
    let mut ledger = Ledger { written: Vec::new(), bound: Vec::new(), uses: Vec::new() };
    let ghost empty = ledger@;
    ledger.record_block(&block);
    proof {
        assert(empty =~= SlotFacts::none());
        assert(ledger@ =~= StatementView::slot_facts_from(block@, 0));
        assert(held@ =~= local_grouping::numbers(protected@).union(
            StatementView::references_of(block@, 0),
        ));
    }
    let foldable = ledger.find_foldable(&held);
    let reads = take_reads(ledger.uses);
    let mut folder = SlotFolder { foldable, reads, count: 0 };
    let folded = folder.fold_tree(block, Ghost(notes));
    (folded, folder.count)
}

} // verus!
