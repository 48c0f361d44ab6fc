//! Writing a tree as source text.

use vstd::prelude::*;

use crate::ast::global::GlobalOrigin;
use crate::ast::layout;
use crate::ast::layout::{
    IndentationMode, Layout, COLUMN_BUDGET, DECLARATION_RUN_BREAK, TABLE_COLUMN_BUDGET,
};
use crate::ast::literal::{Literal, Number};
use crate::ast::local::{is_valid_identifier_in, IdentifierContext, Locals, RcLocal};
use crate::ast::nodes::{
    Assign, BinaryOperation, Block, Call, Class, Closure, Do, GenericFor, GenericForNext, If, Index,
    LValue, LValueView, MethodCall, NumForNext, NumericFor, RValue, RValueView, Repeat, Select,
    SetList, Statement, StatementView, Table, Unary, UnaryOperation, Upvalue, While,
};
use crate::ast::tally::bump;
use crate::ast::{model, nodes};
use crate::text;
use crate::text::{push_ascii, push_decimal};

verus! {

broadcast use nodes::group_views;

impl IndentationMode {
    /// Writes as many levels of indentation.
    pub fn display(&self, out: &mut String, indentation_level: usize)
        ensures
            final(out)@ == old(out)@ + text::repeated(self.unit(), indentation_level as nat),
    {
        let mut level: usize = 0;
        proof {
            assert(out@ =~= old(out)@ + text::repeated(self.unit(), 0));
        }
        while level < indentation_level
            invariant
                level <= indentation_level,
                out@ == old(out)@ + text::repeated(self.unit(), level as nat),
            decreases indentation_level - level,
        {
            let ghost before = out@;
            match self {
                IndentationMode::Tab => {
                    out.push('\t');
                    proof {
                        assert(out@ =~= before + self.unit());
                    }
                },
                IndentationMode::Spaces(spaces) => {
                    let count: u8 = *spaces;
                    let mut written: u8 = 0;
                    proof {
                        assert(out@ =~= before + text::repeated(seq![' '], 0));
                    }
                    while written < count
                        invariant
                            written <= count,
                            out@ == before + text::repeated(seq![' '], written as nat),
                        decreases count - written,
                    {
                        let ghost held = out@;
                        out.push(' ');
                        proof {
                            assert(out@ =~= before + (text::repeated(seq![' '], written as nat)
                                + seq![' ']));
                        }
                        written += 1;
                    }
                },
            }
            proof {
                assert(out@ =~= old(out)@ + (text::repeated(self.unit(), level as nat)
                    + self.unit()));
            }
            level += 1;
        }
    }
}

impl Default for IndentationMode {
    fn default() -> (mode: Self)
        ensures
            mode == IndentationMode::Tab,
    {
        IndentationMode::Tab
    }
}

impl UnaryOperation {
    pub fn as_str(&self) -> (name: &'static str)
        ensures
            name@ == self.text(),
    {
        match self {
            UnaryOperation::Not => "not ",
            UnaryOperation::Negate => "-",
            UnaryOperation::Length => "#",
        }
    }
}

/// The number of bytes of a text.
fn byte_count(written: &String) -> (count: usize)
    ensures
        count == layout::byte_length(written@),
{
    written.as_str().as_bytes().len()
}

fn has_line_break(written: &String) -> (result: bool)
    ensures
        result == layout::breaks_line(written@),
{
    let bytes = written.as_str().as_bytes();
    let mut index: usize = 0;
    while index < bytes.len()
        invariant
            index <= bytes@.len(),
            bytes@ == vstd::utf8::encode_utf8(written@),
            forall|i: int| 0 <= i < index ==> bytes@[i] != 10u8,
        decreases bytes.len() - index,
    {
        if bytes[index] == 10 {
            assert(bytes@[index as int] == 10u8);
            return true;
        }
        index += 1;
    }
    false
}

impl Unary {
    /// Whether the operand needs parentheses.
    pub fn group(&self) -> (result: bool)
        ensures
            result == RValueView::unary_grouped(self.value@, self.operation),
    {
        proof {
            nodes::rvalue_node(*self.value);
        }
        let negated = match &*self.value {
            RValue::Unary(inner) => inner.operation == UnaryOperation::Negate,
            _ => false,
        };
        self.value.precedence() < 7 || (self.operation == UnaryOperation::Negate && negated)
    }
}

fn should_wrap_left_rvalue(value: &RValue) -> (result: bool)
    ensures
        result == value@.wraps_left(),
{
    proof {
        nodes::rvalue_node(*value);
    }
    !matches!(
        value,
        RValue::Local(_) | RValue::Global(_) | RValue::Index(_) | RValue::Select(
            Select::Call(_) | Select::MethodCall(_),
        )
    )
}

fn starts_with_parenthesis(value: &RValue) -> (result: bool)
    ensures
        result == value@.starts_with_parenthesis(),
    decreases value,
{
    proof {
        nodes::rvalue_node(*value);
    }
    if should_wrap_left_rvalue(value) {
        return true;
    }
    match value {
        RValue::Index(index) => starts_with_parenthesis(&index.left),
        _ => false,
    }
}

fn is_ambiguous(value: &RValue) -> (result: bool)
    ensures
        result == value@.is_ambiguous(),
    decreases value,
{
    proof {
        nodes::rvalue_node(*value);
    }
    match value {
        RValue::Local(_) | RValue::Global(_) | RValue::Index(_) | RValue::Call(_)
        | RValue::MethodCall(_) | RValue::Select(Select::Call(_) | Select::MethodCall(_)) => true,
        RValue::Binary(binary) => is_ambiguous(&binary.right),
        RValue::Conditional(conditional) => is_ambiguous(&conditional.else_value),
        _ => false,
    }
}

fn value_stays_inline(value: &RValue) -> (result: bool)
    ensures
        result == value@.stays_inline(),
    decreases value@.size(), 0int,
{
    proof {
        nodes::rvalue_node(*value);
        model::lemma_children_smaller(value@);
    }
    match value {
        RValue::Closure(closure) => closure.function.body.is_empty(),
        _ => {
            let values = value.rvalues();
            let ghost views = RValue::borrowed(values@);
            let mut index: usize = 0;
            while index < values.len()
                invariant
                    index <= values@.len() == views.len(),
                    views == RValue::borrowed(values@),
                    RValueView::sizes_from(views, 0) < value@.size(),
                    RValueView::stay_inline_from(views, 0) == RValueView::stay_inline_from(
                        views,
                        index as int,
                    ),
                    value@.stays_inline() == RValueView::stay_inline_from(views, 0),
                decreases values.len() - index,
            {
                proof {
                    model::lemma_sizes_member(views, 0, index as int);
                }
                if !value_stays_inline(values[index]) {
                    return false;
                }
                index += 1;
            }
            true
        },
    }
}

impl Table {
    /// This table without the fields that a later field with the same constant
    /// key shadows.
    pub fn without_shadowed_literal_fields(&self) -> (compacted: Self)
        ensures
            compacted@ == RValueView::unshadowed(self@),
    {
        let ghost views = self@;
        let mut kept: Vec<(Option<RValue>, RValue)> = Vec::new();
        let mut index: usize = 0;
        proof {
            assert(RValue::field_views(kept@) + RValueView::unshadowed_from(views, 0)
                =~= RValueView::unshadowed(views));
        }
        while index < self.0.len()
            invariant
                index <= self.0@.len() == views.len(),
                views == self@,
                RValue::field_views(kept@) + RValueView::unshadowed_from(views, index as int)
                    =~= RValueView::unshadowed(views),
            decreases self.0.len() - index,
        {
            let ghost held = RValue::field_views(kept@);
            if !is_shadowed(&self.0, index) {
                let key = match &self.0[index].0 {
                    Some(key) => Some(key.clone()),
                    None => None,
                };
                let value = self.0[index].1.clone();
                kept.push((key, value));
                proof {
                    assert(RValue::field_views(kept@) =~= held.push(views[index as int]));
                }
            }
            index += 1;
        }
        proof {
            assert(RValue::field_views(kept@) =~= RValueView::unshadowed(views));
        }
        Table(kept)
    }
}

/// The constant that a key is.
fn literal_key(key: &Option<RValue>) -> (literal: Option<&Literal>)
    ensures
        match literal {
            Some(literal) => RValue::option_view(*key) == Some(RValueView::Literal(literal@)),
            None => match RValue::option_view(*key) {
                Some(RValueView::Literal(_)) => false,
                _ => true,
            },
        },
{
    match key {
        Some(key) => {
            proof {
                nodes::rvalue_node(*key);
            }
            match key {
                RValue::Literal(literal) => Some(literal),
                _ => None,
            }
        },
        None => None,
    }
}

fn is_shadowed(fields: &Vec<(Option<RValue>, RValue)>, at: usize) -> (result: bool)
    requires
        at < fields@.len(),
    ensures
        result == RValueView::is_shadowed(RValue::field_views(fields@), at as int),
{
    let ghost views = RValue::field_views(fields@);
    let length: usize = fields.len();
    assert(views[at as int].0 == RValue::option_view(fields@[at as int].0));
    let literal = match literal_key(&fields[at].0) {
        Some(literal) => literal,
        None => {
            return false;
        },
    };
    if fields[at].1.has_side_effects() {
        return false;
    }
    let mut index: usize = at + 1;
    while index < length
        invariant
            at < index <= length == fields@.len() == views.len(),
            views == RValue::field_views(fields@),
            views[at as int].0 == Some(RValueView::Literal(literal@)),
            !views[at as int].1.has_side_effects(),
            forall|j: int|
                at < j < index ==> !RValueView::has_literal_key(#[trigger] views[j], literal@),
        decreases length - index,
    {
        assert(views[index as int].0 == RValue::option_view(fields@[index as int].0));
        if let Some(later) = literal_key(&fields[index].0) {
            if *later == *literal {
                assert(RValueView::has_literal_key(views[index as int], literal@));
                return true;
            }
        }
        index += 1;
    }
    false
}

fn are_table_keys_sequential(fields: &Vec<(Option<RValue>, RValue)>) -> (result: bool)
    ensures
        result == RValueView::is_sequential(RValue::field_views(fields@)),
{
    let ghost views = RValue::field_views(fields@);
    let mut bare = true;
    let mut index: usize = 0;
    while index < fields.len()
        invariant
            index <= fields@.len() == views.len(),
            views == RValue::field_views(fields@),
            bare == forall|j: int| 0 <= j < index ==> (#[trigger] views[j]).0 is None,
            forall|i: int| 0 <= i < index ==> #[trigger] RValueView::is_own_key(views, i),
        decreases fields.len() - index,
    {
        assert(views[index as int].0 == RValue::option_view(fields@[index as int].0));
        let own = match &fields[index].0 {
            None => bare,
            Some(key) => {
                proof {
                    nodes::rvalue_node(*key);
                }
                let own = match key {
                    RValue::Literal(Literal::Number(number)) => *number == Number::Integer(
                        index as i128 + 1,
                    ),
                    RValue::Literal(Literal::Integer(number)) => *number as i128 == index as i128
                        + 1,
                    _ => false,
                };
                bare = false;
                own
            },
        };
        proof {
            assert(own == RValueView::is_own_key(views, index as int));
        }
        if !own {
            return false;
        }
        index += 1;
    }
    true
}

fn fields_stay_inline(fields: &Vec<(Option<RValue>, RValue)>) -> (result: bool)
    ensures
        result == RValueView::fields_stay_inline(RValue::field_views(fields@)),
{
    let ghost views = RValue::field_views(fields@);
    let mut index: usize = 0;
    while index < fields.len()
        invariant
            index <= fields@.len() == views.len(),
            views == RValue::field_views(fields@),
            forall|i: int|
                0 <= i < index ==> (#[trigger] views[i]).1.stays_inline() && match views[i].0 {
                    Some(key) => key.stays_inline(),
                    None => true,
                },
        decreases fields.len() - index,
    {
        assert(views[index as int].0 == RValue::option_view(fields@[index as int].0));
        let key_stays = match &fields[index].0 {
            Some(key) => value_stays_inline(key),
            None => true,
        };
        if !key_stays || !value_stays_inline(&fields[index].1) {
            return false;
        }
        index += 1;
    }
    true
}

fn is_declaration(statement: &Statement) -> (result: bool)
    ensures
        result == statement@.is_declaration(),
{
    match statement.as_assign() {
        Some(assign) => {
            proof {
                nodes::assign_node(*assign);
            }
            assign.prefix
        },
        None => false,
    }
}

fn defines_function(statement: &Statement) -> (result: bool)
    ensures
        result == statement@.defines_function(),
{
    proof {
        nodes::statement_node(*statement);
    }
    match statement {
        Statement::Assign(assign) => {
            proof {
                nodes::assign_node(*assign);
            }
            if assign.right.len() != 1 {
                return false;
            }
            proof {
                nodes::rvalue_node(assign.right@[0]);
            }
            match &assign.right[0] {
                RValue::Closure(closure) => !closure.function.body.is_empty(),
                _ => false,
            }
        },
        Statement::Class(_) => true,
        _ => false,
    }
}

fn is_defined_by(previous: &Statement, next: &Statement) -> (result: bool)
    ensures
        result == previous@.is_defined_by(next@),
{
    proof {
        nodes::statement_node(*previous);
        nodes::statement_node(*next);
    }
    match (previous, next) {
        (Statement::Assign(declared), Statement::Assign(assign)) => {
            proof {
                nodes::assign_node(*declared);
                nodes::assign_node(*assign);
            }
            if !declared.prefix || assign.prefix || declared.left.len() != 1
                || declared.right.len() != 1 || assign.left.len() != 1 || assign.right.len() != 1 {
                return false;
            }
            proof {
                nodes::lvalue_node(declared.left@[0]);
                nodes::lvalue_node(assign.left@[0]);
                nodes::rvalue_node(declared.right@[0]);
                nodes::rvalue_node(assign.right@[0]);
                assert(LValue::views(declared.left@)[0] == declared.left@[0]@);
                assert(LValue::views(assign.left@)[0] == assign.left@[0]@);
                assert(RValue::views(declared.right@)[0] == declared.right@[0]@);
                assert(RValue::views(assign.right@)[0] == assign.right@[0]@);
            }
            match (&declared.left[0], &assign.left[0], &declared.right[0], &assign.right[0]) {
                (
                    LValue::Local(declared),
                    LValue::Local(assigned),
                    RValue::Literal(Literal::Nil),
                    RValue::Closure(_),
                ) => declared.id == assigned.id,
                _ => false,
            }
        },
        _ => false,
    }
}

fn needs_blank_between(previous: &Statement, next: &Statement, declaration_run: usize) -> (result:
    bool)
    ensures
        result == StatementView::needs_blank(previous@, next@, declaration_run as nat),
{
    proof {
        nodes::statement_node(*previous);
        nodes::statement_node(*next);
    }
    if matches!(previous, Statement::Comment(_) | Statement::Empty(_)) || matches!(
        next,
        Statement::Comment(_) | Statement::Empty(_)
    ) {
        return false;
    }
    if (defines_function(previous) || defines_function(next)) && !is_defined_by(previous, next) {
        return true;
    }
    declaration_run >= DECLARATION_RUN_BREAK && !is_declaration(next)
}

fn ends_ambiguously(statement: &Statement) -> (result: bool)
    ensures
        result == statement@.ends_ambiguously(),
{
    proof {
        nodes::statement_node(*statement);
    }
    match statement {
        Statement::Call(_) | Statement::MethodCall(_) | Statement::Goto(_)
        | Statement::Continue(_) | Statement::Break(_) => true,
        Statement::Repeat(each) => is_ambiguous(&each.condition),
        Statement::Assign(assign) => {
            proof {
                nodes::assign_node(*assign);
            }
            assign.right.len() > 0 && is_ambiguous(&assign.right[assign.right.len() - 1])
        },
        Statement::Return(returned) => {
            returned.values.len() > 0 && is_ambiguous(&returned.values[returned.values.len() - 1])
        },
        _ => false,
    }
}

fn starts_ambiguously(statement: &Statement) -> (result: bool)
    ensures
        result == statement@.starts_ambiguously(),
{
    proof {
        nodes::statement_node(*statement);
    }
    match statement {
        Statement::Assign(assign) => {
            proof {
                nodes::assign_node(*assign);
            }
            if assign.prefix || assign.left.len() == 0 {
                return false;
            }
            proof {
                nodes::lvalue_node(assign.left@[0]);
            }
            match &assign.left[0] {
                LValue::Index(index) => starts_with_parenthesis(&index.left),
                _ => false,
            }
        },
        Statement::Call(call) => starts_with_parenthesis(&call.value),
        Statement::MethodCall(call) => starts_with_parenthesis(&call.value),
        _ => false,
    }
}

fn next_starts_ambiguously(block: &Block, from: usize) -> (result: bool)
    requires
        from <= block@.len(),
    ensures
        result == StatementView::next_starts_ambiguously(block@, from as int),
{
    let ghost views = block@;
    let mut index: usize = from;
    while index < block.0.len()
        invariant
            from <= index <= block.0@.len() == views.len(),
            views == block@,
            StatementView::next_starts_ambiguously(views, from as int)
                == StatementView::next_starts_ambiguously(views, index as int),
        decreases block.0.len() - index,
    {
        proof {
            nodes::statement_node(block.0@[index as int]);
        }
        if !matches!(&block.0[index], Statement::Comment(_)) {
            return starts_ambiguously(&block.0[index]);
        }
        index += 1;
    }
    false
}

fn is_path(index: &Index) -> (result: bool)
    ensures
        result == index@.is_path(),
    decreases index@,
{
    proof {
        nodes::rvalue_node(*index.right);
        nodes::rvalue_node(*index.left);
    }
    match &*index.right {
        RValue::Literal(Literal::String(key)) => {
            if !is_valid_identifier_in(key.as_slice(), IdentifierContext::MemberName) {
                return false;
            }
            match &*index.left {
                RValue::Index(inner) => is_path(inner),
                RValue::Global(_) | RValue::Local(_) => true,
                _ => false,
            }
        },
        _ => false,
    }
}

fn is_captured(upvalues: &Vec<Upvalue>, local: RcLocal) -> (result: bool)
    ensures
        result == exists|i: int|
            0 <= i < upvalues@.len() && (#[trigger] upvalues@[i]).captured() == local,
{
    let mut index: usize = 0;
    while index < upvalues.len()
        invariant
            index <= upvalues.len(),
            forall|i: int| 0 <= i < index ==> (#[trigger] upvalues@[i]).captured() != local,
        decreases upvalues.len() - index,
    {
        let captured = match upvalues[index] {
            Upvalue::Copy(captured) => captured,
            Upvalue::Ref(captured) => captured,
        };
        if captured == local {
            assert(upvalues@[index as int].captured() == local);
            return true;
        }
        index += 1;
    }
    false
}

/// The closure that an assignment defines as a named function.
fn named_closure(assign: &Assign) -> (closure: Option<&Closure>)
    ensures
        match closure {
            Some(closure) => assign@.named_closure() == Some(closure@),
            None => assign@.named_closure() is None,
        },
{
    proof {
        nodes::assign_node(*assign);
    }
    if assign.left.len() != 1 || assign.right.len() != 1 {
        return None;
    }
    proof {
        nodes::lvalue_node(assign.left@[0]);
        nodes::rvalue_node(assign.right@[0]);
        assert(assign@.left[0] == assign.left@[0]@);
        assert(assign@.right[0] == assign.right@[0]@);
    }
    let closure = match &assign.right[0] {
        RValue::Closure(closure) => closure,
        _ => {
            return None;
        },
    };
    let ghost captures = closure@.upvalues;
    let recursive = match assign.left[0].as_local() {
        Some(local) => assign.prefix && is_captured(&closure.upvalues, local),
        None => false,
    };
    proof {
        assert(captures == closure.upvalues@);
        match assign@.left[0] {
            LValueView::Local(local) => {
                assert(recursive == (assign@.prefix && exists|i: int|
                    0 <= i < captures.len() && (#[trigger] captures[i]).captured() == local));
            },
            _ => {
                assert(!recursive);
            },
        }
        assert(recursive == assign@.captures_target(closure@));
    }
    if closure.function.name.is_none() && !recursive {
        return None;
    }
    let named = assign.prefix || match &assign.left[0] {
        LValue::Global(_) => true,
        LValue::Index(index) => is_path(index),
        LValue::Local(_) => false,
    };
    if named {
        Some(closure)
    } else {
        None
    }
}

fn stable_compound_index_component(value: &RValue) -> (result: bool)
    ensures
        result == value@.is_stable(),
{
    proof {
        nodes::rvalue_node(*value);
    }
    match value {
        RValue::Local(_) | RValue::Literal(_) => true,
        RValue::Global(global) => global.origin() == GlobalOrigin::CompilerImport,
        _ => false,
    }
}

/// The operation and operand of an update of the one target.
fn compound_assignment(assign: &Assign) -> (update: Option<(BinaryOperation, &RValue)>)
    ensures
        match update {
            Some((operation, operand)) => assign@.update() == Some((operation, operand@)),
            None => assign@.update() is None,
        },
{
    proof {
        nodes::assign_node(*assign);
    }
    if assign.prefix || assign.parallel || assign.left.len() != 1 || assign.right.len() != 1 {
        return None;
    }
    proof {
        nodes::lvalue_node(assign.left@[0]);
        nodes::rvalue_node(assign.right@[0]);
        assert(assign@.left[0] == assign.left@[0]@);
        assert(assign@.right[0] == assign.right@[0]@);
    }
    let binary = match &assign.right[0] {
        RValue::Binary(binary) => binary,
        _ => {
            return None;
        },
    };
    if !matches!(
        binary.operation,
        BinaryOperation::Add | BinaryOperation::Sub | BinaryOperation::Mul | BinaryOperation::Div
        | BinaryOperation::IDiv | BinaryOperation::Mod | BinaryOperation::Pow
        | BinaryOperation::Concat
    ) {
        return None;
    }
    proof {
        nodes::rvalue_node(*binary.left);
    }
    let same = match (&assign.left[0], &*binary.left) {
        (LValue::Local(target), RValue::Local(read)) => *target == *read,
        (LValue::Index(target), RValue::Index(read)) => target.left.equals(&read.left)
            && target.right.equals(&read.right) && stable_compound_index_component(&target.left)
            && stable_compound_index_component(&target.right),
        _ => false,
    };
    if same {
        Some((binary.operation, &binary.right))
    } else {
        None
    }
}

fn count_kept_values(values: &Vec<RValue>) -> (count: usize)
    ensures
        count <= values@.len(),
        count == layout::kept_values(RValue::views(values@), values@.len() as int),
{
    let ghost views = RValue::views(values@);
    let mut count: usize = values.len();
    while count > 1
        invariant
            count <= values@.len() == views.len(),
            views == RValue::views(values@),
            layout::kept_values(views, views.len() as int) == layout::kept_values(
                views,
                count as int,
            ),
        ensures
            count <= values@.len(),
            count == layout::kept_values(views, views.len() as int),
        decreases count,
    {
        proof {
            nodes::rvalue_node(values@[count - 1]);
        }
        if !matches!(&values[count - 1], RValue::Literal(Literal::Nil)) {
            break;
        }
        count -= 1;
    }
    count
}

fn is_one(value: &RValue) -> (result: bool)
    ensures
        result == layout::is_one(value@),
{
    proof {
        nodes::rvalue_node(*value);
    }
    match value {
        RValue::Literal(Literal::Number(number)) => *number == Number::Integer(1),
        _ => false,
    }
}

/// Writes code with the names of an arena, at a level of indentation.
pub struct Formatter<'a> {
    pub indentation_level: usize,
    pub indentation_mode: IndentationMode,
    pub locals: &'a Locals,
}

impl<'a> Formatter<'a> {
    /// How this writes.
    pub open spec fn layout(&self) -> Layout {
        Layout {
            names: self.locals@,
            mode: self.indentation_mode,
            level: self.indentation_level,
        }
    }

    /// The text of a whole program.
    pub fn format(main: &Block, locals: &Locals, indentation_mode: IndentationMode) -> (written:
        String)
        ensures
            written@ == (Layout { names: locals@, mode: indentation_mode, level: 0 }).block(main@),
    {
        let formatter = Formatter { indentation_level: 0, indentation_mode, locals };
        let mut out = String::new();
        formatter.format_block_no_indent(main, &mut out);
        proof {
            assert(out@ =~= formatter.layout().block(main@));
        }
        out
    }

    /// One level deeper.
    fn deeper(&self) -> (formatter: Formatter<'a>)
        ensures
            formatter.layout() == self.layout().deeper(),
    {
        Formatter {
            indentation_level: bump(self.indentation_level),
            indentation_mode: self.indentation_mode,
            locals: self.locals,
        }
    }

    /// Not indented, with tabs.
    fn plain(&self) -> (formatter: Formatter<'a>)
        ensures
            formatter.layout() == self.layout().plain(),
    {
        Formatter {
            indentation_level: 0,
            indentation_mode: IndentationMode::Tab,
            locals: self.locals,
        }
    }

    /// As many tabs deep as this is columns deep.
    fn flat(&self) -> (formatter: Formatter<'a>)
        ensures
            formatter.layout() == self.layout().flat(),
    {
        Formatter {
            indentation_level: self.indentation_width(),
            indentation_mode: IndentationMode::Tab,
            locals: self.locals,
        }
    }

    fn indent(&self, out: &mut String)
        ensures
            final(out)@ == old(out)@ + self.layout().margin(),
    {
        self.indentation_mode.display(out, self.indentation_level)
    }

    /// Number of columns `indent()` currently emits.
    fn indentation_width(&self) -> (width: usize)
        ensures
            width == self.layout().width(),
    {
        match self.indentation_mode {
            IndentationMode::Tab => self.indentation_level,
            IndentationMode::Spaces(spaces) => {
                let level: u128 = self.indentation_level as u128;
                let each: u128 = spaces as u128;
                assert(0 <= each * level <= 255 * 0xffff_ffff_ffff_ffff) by (nonlinear_arith)
                    requires
                        0 <= each <= 255,
                        0 <= level <= 0xffff_ffff_ffff_ffff,
                ;
                let width: u128 = each * level;
                proof {
                    assert(spaces * self.indentation_level == each * level);
                }
                if width <= usize::MAX as u128 {
                    width as usize
                } else {
                    usize::MAX
                }
            },
        }
    }

    fn format_locals(&self, locals: &Vec<RcLocal>, skip: usize, out: &mut String)
        requires
            skip <= locals@.len(),
        ensures
            final(out)@ == old(out)@ + self.layout().locals_from(locals@.skip(skip as int), 0),
    {
        let ghost whole = locals@.skip(skip as int);
        let ghost layout = self.layout();
        let mut index: usize = skip;
        while index < locals.len()
            invariant
                skip <= index <= locals@.len(),
                whole == locals@.skip(skip as int),
                layout == self.layout(),
                out@ + layout.locals_from(whole, index - skip) =~= old(out)@ + layout.locals_from(
                    whole,
                    0,
                ),
            decreases locals.len() - index,
        {
            proof {
                assert(whole[index - skip] == locals@[index as int]);
            }
            if index > skip {
                out.append(", ");
            }
            locals[index].push_to(self.locals, out);
            index += 1;
        }
        proof {
            assert(out@ =~= old(out)@ + layout.locals_from(whole, 0));
        }
    }

    fn format_closure_parameters_from(&self, closure: &Closure, skip: usize, out: &mut String)
        requires
            skip <= closure.function.parameters@.len(),
        ensures
            final(out)@ == old(out)@ + self.layout().parameters(
                closure@.function.parameters.skip(skip as int),
                closure@.function.is_variadic,
            ),
    {
        self.format_locals(&closure.function.parameters, skip, out);
        if closure.function.is_variadic {
            if closure.function.parameters.len() > skip {
                out.append(", ...");
            } else {
                out.append("...");
            }
        }
        proof {
            assert(out@ =~= old(out)@ + self.layout().parameters(
                closure@.function.parameters.skip(skip as int),
                closure@.function.is_variadic,
            ));
        }
    }

    fn format_closure_body(&self, closure: &Closure, out: &mut String)
        ensures
            final(out)@ == old(out)@ + self.layout().body(closure@.function.body),
        decreases StatementView::sizes_from(closure@.function.body, 0), 4int,
    {
        if !closure.function.body.is_empty() {
            out.append("\n");
            self.deeper().format_block_no_indent(&closure.function.body, out);
            out.append("\n");
            self.indent(out);
        } else {
            out.append(" ");
        }
        proof {
            assert(out@ =~= old(out)@ + self.layout().body(closure@.function.body));
        }
    }

    /// The parameters past the first ones, and the body.
    fn format_signature(&self, closure: &Closure, skip: usize, out: &mut String)
        requires
            skip <= closure.function.parameters@.len(),
        ensures
            final(out)@ == old(out)@ + self.layout().signature(closure@, skip as int),
        decreases StatementView::sizes_from(closure@.function.body, 0), 5int,
    {
        out.append("(");
        self.format_closure_parameters_from(closure, skip, out);
        out.append(")");
        self.format_closure_body(closure, out);
        out.append("end");
        proof {
            assert(out@ =~= old(out)@ + self.layout().signature(closure@, skip as int));
        }
    }

    pub fn format_closure(&self, closure: &Closure, out: &mut String)
        ensures
            final(out)@ == old(out)@ + self.layout().closure(closure@),
        decreases StatementView::sizes_from(closure@.function.body, 0), 6int,
    {
        out.append("function");
        self.format_signature(closure, 0, out);
        proof {
            assert(out@ =~= old(out)@ + self.layout().closure(closure@));
        }
    }

    pub fn format_rvalue(&self, value: &RValue, out: &mut String)
        ensures
            final(out)@ == old(out)@ + self.layout().value(value@),
        decreases value@.size(), 0int,
    {
        let ghost layout = self.layout();
        proof {
            nodes::rvalue_node(*value);
            reveal(RValueView::size);
        }
        match value {
            RValue::Local(local) => local.push_to(self.locals, out),
            RValue::Global(global) => global.push_to(out),
            RValue::VarArg(_) => out.append("..."),
            RValue::Call(call) => self.format_call(call, out),
            RValue::MethodCall(call) => self.format_method_call(call, out),
            RValue::Select(Select::VarArg(_)) => out.append("..."),
            RValue::Select(Select::Call(call)) => self.format_call(call, out),
            RValue::Select(Select::MethodCall(call)) => self.format_method_call(call, out),
            RValue::Table(table) => {
                proof {
                    layout::lemma_unshadowed_smaller(table@, 0);
                }
                let compacted = table.without_shadowed_literal_fields();
                let replaced = compacted.0.len() < table.0.len();
                self.write_table(&compacted.0, replaced, out);
            },
            RValue::Literal(Literal::Number(Number::Infinity)) => out.append("(1 / 0)"),
            RValue::Literal(Literal::Number(Number::NegativeInfinity)) => out.append("(-1 / 0)"),
            RValue::Literal(Literal::Number(Number::NotANumber)) => out.append("(0 / 0)"),
            RValue::Literal(literal) => literal.push_to(out),
            RValue::Index(index) => self.format_index(index, out),
            RValue::Unary(unary) => {
                out.append(unary.operation.as_str());
                self.format_grouped(&unary.value, unary.group(), out);
                proof {
                    assert(out@ =~= old(out)@ + layout.value(value@));
                }
            },
            RValue::Binary(binary) => {
                self.format_grouped(&binary.left, binary.left_group(), out);
                out.append(" ");
                out.append(binary.operation.as_str());
                out.append(" ");
                self.format_grouped(&binary.right, binary.right_group(), out);
                proof {
                    assert(out@ =~= old(out)@ + layout.value(value@));
                }
            },
            RValue::Conditional(conditional) => {
                proof {
                    nodes::rvalue_node(*conditional.else_value);
                }
                out.append("if ");
                self.format_rvalue(&conditional.condition, out);
                out.append(" then ");
                self.format_rvalue(&conditional.then_value, out);
                if matches!(&*conditional.else_value, RValue::Conditional(_)) {
                    out.append(" else");
                } else {
                    out.append(" else ");
                }
                self.format_rvalue(&conditional.else_value, out);
                proof {
                    assert(out@ =~= old(out)@ + layout.value(value@));
                }
            },
            RValue::Closure(closure) => self.format_closure(closure, out),
        }
    }

    fn format_grouped(&self, value: &RValue, group: bool, out: &mut String)
        ensures
            final(out)@ == old(out)@ + self.layout().grouped(value@, group),
        decreases value@.size(), 1int,
    {
        if group {
            out.append("(");
            self.format_rvalue(value, out);
            out.append(")");
        } else {
            self.format_rvalue(value, out);
        }
        proof {
            assert(out@ =~= old(out)@ + self.layout().grouped(value@, group));
        }
    }

    pub fn format_index(&self, index: &Index, out: &mut String)
        ensures
            final(out)@ == old(out)@ + self.layout().index(index@),
        decreases index@.left.size() + index@.right.size(), 2int,
    {
        proof {
            nodes::rvalue_node(*index.right);
        }
        self.format_grouped(&index.left, should_wrap_left_rvalue(&index.left), out);
        match &*index.right {
            RValue::Literal(Literal::String(field)) => {
                if is_valid_identifier_in(field.as_slice(), IdentifierContext::MemberName) {
                    out.append(".");
                    push_ascii(out, field.as_slice());
                } else {
                    out.append("[");
                    self.format_rvalue(&index.right, out);
                    out.append("]");
                }
            },
            _ => {
                out.append("[");
                self.format_rvalue(&index.right, out);
                out.append("]");
            },
        }
        proof {
            assert(out@ =~= old(out)@ + self.layout().index(index@));
        }
    }

    pub fn format_call(&self, call: &Call, out: &mut String)
        ensures
            final(out)@ == old(out)@ + self.layout().call(call@),
        decreases call@.value.size() + RValueView::sizes_from(call@.arguments, 0), 6int,
    {
        self.format_grouped(&call.value, should_wrap_left_rvalue(&call.value), out);
        out.append("(");
        self.format_arg_list(&call.arguments, out);
        out.append(")");
        proof {
            assert(out@ =~= old(out)@ + self.layout().call(call@));
        }
    }

    pub fn format_method_call(&self, call: &MethodCall, out: &mut String)
        ensures
            final(out)@ == old(out)@ + self.layout().method_call(call@),
        decreases call@.value.size() + RValueView::sizes_from(call@.arguments, 0), 6int,
    {
        self.format_grouped(&call.value, should_wrap_left_rvalue(&call.value), out);
        out.append(":");
        out.append(call.method.as_str());
        out.append("(");
        self.format_arg_list(&call.arguments, out);
        out.append(")");
        proof {
            assert(out@ =~= old(out)@ + self.layout().method_call(call@));
        }
    }

    /// Whether a value takes more than one line.
    fn value_renders_multiline(&self, value: &RValue) -> (result: bool)
        ensures
            result == self.layout().takes_lines(value@),
        decreases value@.size(), 1int,
    {
        proof {
            nodes::rvalue_node(*value);
            reveal(RValueView::size);
        }
        match value {
            RValue::Closure(closure) => !closure.function.body.is_empty(),
            RValue::Table(table) => {
                proof {
                    layout::lemma_unshadowed_smaller(table@, 0);
                }
                let compacted = table.without_shadowed_literal_fields();
                let replaced = compacted.0.len() < table.0.len();
                self.compacted_table_renders_multiline(&compacted.0, replaced)
            },
            _ => false,
        }
    }

    fn any_renders_multiline(&self, list: &Vec<RValue>) -> (result: bool)
        ensures
            result == self.layout().take_lines_from(RValue::views(list@), 0),
        decreases RValueView::sizes_from(RValue::views(list@), 0), 2int,
    {
        let ghost views = RValue::views(list@);
        let ghost layout = self.layout();
        let mut index: usize = 0;
        while index < list.len()
            invariant
                index <= list@.len() == views.len(),
                views == RValue::views(list@),
                layout == self.layout(),
                layout.take_lines_from(views, 0) == layout.take_lines_from(views, index as int),
            decreases list.len() - index,
        {
            proof {
                model::lemma_sizes_member(views, 0, index as int);
            }
            if self.value_renders_multiline(&list[index]) {
                return true;
            }
            index += 1;
        }
        false
    }

    /// Whether arguments are too long for a line, by their own lengths.
    fn seems_long(&self, list: &Vec<RValue>) -> (result: bool)
        requires
            list@.len() > 1,
        ensures
            result == (self.layout().width() + self.layout().lengths_from(RValue::views(list@), 0)
                + 2 * (list@.len() - 1) > COLUMN_BUDGET),
        decreases RValueView::sizes_from(RValue::views(list@), 0), 2int,
    {
        let ghost views = RValue::views(list@);
        let ghost layout = self.layout();
        let mut total: u128 = self.indentation_width() as u128 + 2 * (list.len() as u128 - 1);
        let mut index: usize = 0;
        while index < list.len()
            invariant
                index <= list@.len() == views.len(),
                list@.len() > 1,
                total <= 3 * (usize::MAX as u128) + COLUMN_BUDGET as u128,
                views == RValue::views(list@),
                layout == self.layout(),
                total + layout.lengths_from(views, index as int) == layout.width()
                    + layout.lengths_from(views, 0) + 2 * (list@.len() - 1),
            decreases list.len() - index,
        {
            if total > COLUMN_BUDGET as u128 {
                return true;
            }
            proof {
                model::lemma_sizes_member(views, 0, index as int);
            }
            let mut scratch = String::new();
            self.plain().format_rvalue(&list[index], &mut scratch);
            proof {
                assert(scratch@ =~= layout.plain().value(views[index as int]));
            }
            total += byte_count(&scratch) as u128;
            index += 1;
        }
        total > COLUMN_BUDGET as u128
    }

    pub fn format_arg_list(&self, list: &Vec<RValue>, out: &mut String)
        ensures
            final(out)@ == old(out)@ + self.layout().arguments(RValue::views(list@)),
        decreases RValueView::sizes_from(RValue::views(list@), 0), 4int,
    {
        let ghost views = RValue::views(list@);
        let ghost layout = self.layout();
        if list.len() > 1 && !self.any_renders_multiline(list) && self.seems_long(list) {
            let mut scratch = String::new();
            self.format_arg_list_inline(list, &mut scratch);
            proof {
                assert(scratch@ =~= layout.inline_from(views, 0));
            }
            if self.indentation_width() as u128 + byte_count(&scratch) as u128
                > COLUMN_BUDGET as u128 {
                self.format_arg_list_wrapped(list, out);
            } else {
                out.append(scratch.as_str());
            }
        } else {
            self.format_arg_list_inline(list, out);
        }
    }

    fn format_arg_list_inline(&self, list: &Vec<RValue>, out: &mut String)
        ensures
            final(out)@ == old(out)@ + self.layout().inline_from(RValue::views(list@), 0),
        decreases RValueView::sizes_from(RValue::views(list@), 0), 2int,
    {
        let ghost views = RValue::views(list@);
        let ghost layout = self.layout();
        let mut index: usize = 0;
        while index < list.len()
            invariant
                index <= list@.len() == views.len(),
                views == RValue::views(list@),
                layout == self.layout(),
                out@ + layout.inline_from(views, index as int) =~= old(out)@ + layout.inline_from(
                    views,
                    0,
                ),
            decreases list.len() - index,
        {
            proof {
                model::lemma_sizes_member(views, 0, index as int);
                nodes::rvalue_node(list@[index as int]);
            }
            if index + 1 == list.len() {
                self.format_grouped(
                    &list[index],
                    matches!(&list[index], RValue::Select(_)),
                    out,
                );
                proof {
                    assert(layout.inline_from(views, index + 1) =~= Seq::<char>::empty());
                }
            } else {
                self.format_rvalue(&list[index], out);
                out.append(", ");
            }
            index += 1;
        }
        proof {
            assert(out@ =~= old(out)@ + layout.inline_from(views, 0));
        }
    }

    /// One argument per line, at one indentation level deeper than the
    /// call itself. Leaves the cursor positioned right after `indent()` at
    /// the call's own level, ready for the caller to close with `)`.
    fn format_arg_list_wrapped(&self, list: &Vec<RValue>, out: &mut String)
        ensures
            final(out)@ == old(out)@ + "\n"@ + self.layout().deeper().lines_from(
                RValue::views(list@),
                0,
            ) + self.layout().margin(),
        decreases RValueView::sizes_from(RValue::views(list@), 0), 2int,
    {
        let ghost views = RValue::views(list@);
        out.append("\n");
        let deeper = self.deeper();
        let ghost layout = deeper.layout();
        let ghost start = out@;
        let mut index: usize = 0;
        while index < list.len()
            invariant
                index <= list@.len() == views.len(),
                views == RValue::views(list@),
                layout == deeper.layout(),
                out@ + layout.lines_from(views, index as int) =~= start + layout.lines_from(
                    views,
                    0,
                ),
            decreases list.len() - index,
        {
            proof {
                model::lemma_sizes_member(views, 0, index as int);
                nodes::rvalue_node(list@[index as int]);
            }
            let last = index + 1 == list.len();
            deeper.indent(out);
            deeper.format_grouped(
                &list[index],
                last && matches!(&list[index], RValue::Select(_)),
                out,
            );
            if last {
                out.append("\n");
            } else {
                out.append(",\n");
            }
            index += 1;
        }
        self.indent(out);
        proof {
            assert(out@ =~= old(out)@ + "\n"@ + layout.lines_from(views, 0)
                + self.layout().margin());
        }
    }

    /// Writes the key of a field, if it needs one written.
    fn write_table_key(&self, key: &Option<RValue>, sequential: bool, out: &mut String)
        ensures
            final(out)@ == old(out)@ + self.layout().key(RValue::option_view(*key), sequential),
        decreases
            (match RValue::option_view(*key) {
                Some(key) => key.size(),
                None => 0,
            }),
            1int,
    {
        let ghost layout = self.layout();
        if sequential {
            return;
        }
        match key {
            Some(key) => {
                proof {
                    nodes::rvalue_node(*key);
                }
                match key {
                    RValue::Literal(Literal::String(field)) => {
                        if is_valid_identifier_in(
                            field.as_slice(),
                            IdentifierContext::TableField,
                        ) {
                            push_ascii(out, field.as_slice());
                            out.append(" = ");
                        } else {
                            out.append("[");
                            self.format_rvalue(key, out);
                            out.append("] = ");
                        }
                    },
                    _ => {
                        out.append("[");
                        self.format_rvalue(key, out);
                        out.append("] = ");
                    },
                }
            },
            None => {},
        }
        proof {
            assert(out@ =~= old(out)@ + layout.key(RValue::option_view(*key), sequential));
        }
    }

    /// Writes a field, parenthesizing a trailing multiple-result expression so
    /// it contributes one element rather than filling the table.
    fn write_table_field(
        &self,
        fields: &Vec<(Option<RValue>, RValue)>,
        at: usize,
        sequential: bool,
        out: &mut String,
    )
        requires
            at < fields@.len(),
        ensures
            final(out)@ == old(out)@ + self.layout().field(
                RValue::field_views(fields@),
                at as int,
                sequential,
            ),
        decreases RValueView::field_sizes_from(RValue::field_views(fields@), at as int), 2int,
    {
        let ghost views = RValue::field_views(fields@);
        let length: usize = fields.len();
        proof {
            layout::lemma_field_parts(views, at as int);
            nodes::rvalue_node(fields@[at as int].1);
            assert(views[at as int].0 == RValue::option_view(fields@[at as int].0));
        }
        let fills = at + 1 == length && (fields[at].0.is_none() || sequential);
        self.write_table_key(&fields[at].0, sequential, out);
        self.format_grouped(
            &fields[at].1,
            fills && matches!(&fields[at].1, RValue::Select(_)),
            out,
        );
        proof {
            assert(out@ =~= old(out)@ + self.layout().field(views, at as int, sequential));
        }
    }

    fn write_table_inline(&self, fields: &Vec<(Option<RValue>, RValue)>, out: &mut String)
        ensures
            final(out)@ == old(out)@ + self.layout().inline_table(RValue::field_views(fields@)),
        decreases RValueView::field_sizes_from(RValue::field_views(fields@), 0), 4int,
    {
        let ghost views = RValue::field_views(fields@);
        let ghost layout = self.layout();
        if fields.len() == 0 {
            out.append("{}");
            return;
        }
        let sequential = are_table_keys_sequential(fields);
        out.append("{ ");
        let ghost start = out@;
        let mut index: usize = 0;
        while index < fields.len()
            invariant
                index <= fields@.len() == views.len(),
                views == RValue::field_views(fields@),
                layout == self.layout(),
                RValueView::field_sizes_from(views, index as int) <= RValueView::field_sizes_from(
                    views,
                    0,
                ),
                out@ + layout.inline_fields_from(views, index as int, sequential) =~= start
                    + layout.inline_fields_from(views, 0, sequential),
            decreases fields.len() - index,
        {
            proof {
                layout::lemma_field_parts(views, index as int);
            }
            if index != 0 {
                out.append(", ");
            }
            self.write_table_field(fields, index, sequential, out);
            index += 1;
        }
        out.append(" }");
        proof {
            assert(out@ =~= old(out)@ + layout.inline_table(views));
        }
    }

    fn write_table_multiline(&self, fields: &Vec<(Option<RValue>, RValue)>, out: &mut String)
        ensures
            final(out)@ == old(out)@ + "{\n"@ + self.layout().deeper().field_lines_from(
                RValue::field_views(fields@),
                0,
                RValueView::is_sequential(RValue::field_views(fields@)),
            ) + self.layout().margin() + "}"@,
        decreases RValueView::field_sizes_from(RValue::field_views(fields@), 0), 4int,
    {
        let ghost views = RValue::field_views(fields@);
        let sequential = are_table_keys_sequential(fields);
        out.append("{\n");
        let deeper = self.deeper();
        let ghost layout = deeper.layout();
        let ghost start = out@;
        let mut index: usize = 0;
        while index < fields.len()
            invariant
                index <= fields@.len() == views.len(),
                views == RValue::field_views(fields@),
                layout == deeper.layout(),
                RValueView::field_sizes_from(views, index as int) <= RValueView::field_sizes_from(
                    views,
                    0,
                ),
                out@ + layout.field_lines_from(views, index as int, sequential) =~= start
                    + layout.field_lines_from(views, 0, sequential),
            decreases fields.len() - index,
        {
            proof {
                layout::lemma_field_parts(views, index as int);
            }
            deeper.indent(out);
            deeper.write_table_field(fields, index, sequential, out);
            if index + 1 == fields.len() {
                out.append("\n");
            } else {
                out.append(",\n");
            }
            index += 1;
        }
        self.indent(out);
        out.append("}");
        proof {
            assert(out@ =~= old(out)@ + "{\n"@ + layout.field_lines_from(views, 0, sequential)
                + self.layout().margin() + "}"@);
        }
    }

    /// Whether a table without shadowed fields is written with each field on a
    /// line of its own.
    ///
    /// The predicate and the writer must agree, so both go by the inline form,
    /// written at the same starting column.
    fn compacted_table_renders_multiline(
        &self,
        fields: &Vec<(Option<RValue>, RValue)>,
        replaced: bool,
    ) -> (result: bool)
        ensures
            result == self.layout().breaks_up(RValue::field_views(fields@), replaced),
        decreases RValueView::field_sizes_from(RValue::field_views(fields@), 0), 5int,
    {
        let ghost views = RValue::field_views(fields@);
        if fields.len() == 0 {
            return false;
        }
        if replaced || !fields_stay_inline(fields) {
            return true;
        }
        let mut scratch = String::new();
        self.flat().write_table_inline(fields, &mut scratch);
        proof {
            assert(scratch@ =~= self.layout().flat().inline_table(views));
        }
        has_line_break(&scratch) || self.indentation_width() as u128 + byte_count(&scratch) as u128
            > TABLE_COLUMN_BUDGET as u128
    }

    fn write_table(&self, fields: &Vec<(Option<RValue>, RValue)>, replaced: bool, out: &mut String)
        ensures
            final(out)@ == old(out)@ + self.layout().table(RValue::field_views(fields@), replaced),
        decreases RValueView::field_sizes_from(RValue::field_views(fields@), 0), 6int,
    {
        let ghost views = RValue::field_views(fields@);
        if self.compacted_table_renders_multiline(fields, replaced) {
            self.write_table_multiline(fields, out);
            proof {
                assert(out@ =~= old(out)@ + self.layout().table(views, replaced));
            }
        } else {
            self.write_table_inline(fields, out);
        }
    }

    /// Writes a table, without the fields that a later one shadows.
    pub fn format_table(&self, table: &Table, out: &mut String)
        ensures
            final(out)@ == old(out)@ + self.layout().table(
                RValueView::unshadowed(table@),
                RValueView::is_shadowing(table@),
            ),
        decreases RValueView::field_sizes_from(table@, 0), 7int,
    {
        proof {
            layout::lemma_unshadowed_smaller(table@, 0);
        }
        let compacted = table.without_shadowed_literal_fields();
        let replaced = compacted.0.len() < table.0.len();
        self.write_table(&compacted.0, replaced, out);
    }

    /// Writes the statements of a block, at this level.
    pub fn format_block_no_indent(&self, block: &Block, out: &mut String)
        ensures
            final(out)@ == old(out)@ + self.layout().block(block@),
        decreases StatementView::sizes_from(block@, 0), 3int,
    {
        let ghost views = block@;
        let ghost layout = self.layout();
        let mut run: usize = 0;
        let mut index: usize = 0;
        while index < block.0.len()
            invariant
                run <= index <= block.0@.len() == views.len(),
                views == block@,
                layout == self.layout(),
                out@ + layout.block_from(views, index as int, run as nat) =~= old(out)@
                    + layout.block_from(views, 0, 0),
            decreases block.0.len() - index,
        {
            let ghost before = out@;
            let ghost held = run as nat;
            proof {
                model::lemma_statement_sizes_member(views, 0, index as int);
            }
            let statement = &block.0[index];
            if index != 0 {
                if needs_blank_between(&block.0[index - 1], statement, run) {
                    out.append("\n\n");
                } else {
                    out.append("\n");
                }
            }
            run = if is_declaration(statement) {
                run + 1
            } else {
                0
            };
            self.indent(out);
            self.format_statement(statement, out);
            if ends_ambiguously(statement) && next_starts_ambiguously(block, index + 1) {
                out.append(";");
            }
            proof {
                assert(out@ + layout.block_from(views, index + 1, run as nat) =~= before
                    + layout.block_from(views, index as int, held));
            }
            index += 1;
        }
        proof {
            assert(out@ =~= old(out)@ + layout.block(views));
        }
    }

    /// Writes a nested block and the margin of the line it ends with.
    fn format_nested(&self, block: &Block, out: &mut String)
        ensures
            final(out)@ == old(out)@ + self.layout().nested(block@),
        decreases StatementView::sizes_from(block@, 0), 4int,
    {
        self.deeper().format_block_no_indent(block, out);
        out.append("\n");
        self.indent(out);
        proof {
            assert(out@ =~= old(out)@ + self.layout().nested(block@));
        }
    }

    pub fn format_lvalue(&self, target: &LValue, out: &mut String)
        ensures
            final(out)@ == old(out)@ + self.layout().target(target@),
        decreases target@.size(), 3int,
    {
        proof {
            nodes::lvalue_node(*target);
        }
        match target {
            LValue::Local(local) => local.push_to(self.locals, out),
            LValue::Global(global) => global.push_to(out),
            LValue::Index(index) => self.format_index(index, out),
        }
    }

    fn format_targets(&self, targets: &Vec<LValue>, out: &mut String)
        ensures
            final(out)@ == old(out)@ + self.layout().targets_from(LValue::views(targets@), 0),
        decreases LValueView::sizes_from(LValue::views(targets@), 0), 4 + targets@.len(),
    {
        let ghost views = LValue::views(targets@);
        let ghost layout = self.layout();
        let mut index: usize = 0;
        while index < targets.len()
            invariant
                index <= targets@.len() == views.len(),
                views == LValue::views(targets@),
                layout == self.layout(),
                LValueView::sizes_from(views, index as int) <= LValueView::sizes_from(views, 0),
                out@ + layout.targets_from(views, index as int) =~= old(out)@
                    + layout.targets_from(views, 0),
            decreases targets.len() - index,
        {
            proof {
                layout::lemma_target_parts(views, index as int);
            }
            if index != 0 {
                out.append(", ");
            }
            self.format_lvalue(&targets[index], out);
            index += 1;
        }
        proof {
            assert(out@ =~= old(out)@ + layout.targets_from(views, 0));
        }
    }

    fn format_assigned(&self, values: &Vec<RValue>, count: usize, out: &mut String)
        ensures
            final(out)@ == old(out)@ + self.layout().assigned_from(
                RValue::views(values@),
                0,
                count as int,
            ),
        decreases RValueView::sizes_from(RValue::views(values@), 0), 2int,
    {
        let ghost views = RValue::views(values@);
        let ghost layout = self.layout();
        let mut index: usize = 0;
        while index < values.len()
            invariant
                index <= values@.len() == views.len(),
                views == RValue::views(values@),
                layout == self.layout(),
                out@ + layout.assigned_from(views, index as int, count as int) =~= old(out)@
                    + layout.assigned_from(views, 0, count as int),
            decreases values.len() - index,
        {
            proof {
                model::lemma_sizes_member(views, 0, index as int);
                nodes::rvalue_node(values@[index as int]);
            }
            if index != 0 {
                out.append(", ");
            }
            let open = index + 1 == values.len() && index < count && count - index > 1;
            self.format_grouped(
                &values[index],
                open && matches!(&values[index], RValue::Select(_)),
                out,
            );
            index += 1;
        }
        proof {
            assert(out@ =~= old(out)@ + layout.assigned_from(views, 0, count as int));
        }
    }

    fn format_values(&self, values: &Vec<RValue>, count: usize, out: &mut String)
        requires
            count <= values@.len(),
        ensures
            final(out)@ == old(out)@ + self.layout().values_from(
                RValue::views(values@),
                0,
                count as int,
            ),
        decreases RValueView::sizes_from(RValue::views(values@), 0), 2int,
    {
        let ghost views = RValue::views(values@);
        let ghost layout = self.layout();
        let mut index: usize = 0;
        while index < count
            invariant
                index <= count <= values@.len() == views.len(),
                views == RValue::views(values@),
                layout == self.layout(),
                out@ + layout.values_from(views, index as int, count as int) =~= old(out)@
                    + layout.values_from(views, 0, count as int),
            decreases count - index,
        {
            proof {
                model::lemma_sizes_member(views, 0, index as int);
            }
            if index != 0 {
                out.append(", ");
            }
            self.format_rvalue(&values[index], out);
            index += 1;
        }
        proof {
            assert(out@ =~= old(out)@ + layout.values_from(views, 0, count as int));
        }
    }

    fn format_named_function(&self, name: &LValue, closure: &Closure, out: &mut String)
        ensures
            final(out)@ == old(out)@ + self.layout().named_function(name@, closure@),
        decreases name@.size() + StatementView::sizes_from(closure@.function.body, 0), 6int,
    {
        let ghost layout = self.layout();
        proof {
            nodes::lvalue_node(*name);
        }
        if closure.function.is_method {
            if let LValue::Index(index) = name {
                proof {
                    nodes::rvalue_node(*index.right);
                }
                if let RValue::Literal(Literal::String(method)) = &*index.right {
                    if is_valid_identifier_in(method.as_slice(), IdentifierContext::MethodName) {
                        out.append("function ");
                        self.format_rvalue(&index.left, out);
                        out.append(":");
                        push_ascii(out, method.as_slice());
                        if closure.function.parameters.len() > 0 {
                            self.format_signature(closure, 1, out);
                        } else {
                            self.format_signature(closure, 0, out);
                            proof {
                                assert(closure@.function.parameters.skip(0)
                                    =~= Seq::<RcLocal>::empty());
                            }
                        }
                        proof {
                            assert(out@ =~= old(out)@ + layout.named_function(name@, closure@));
                        }
                        return;
                    }
                }
            }
        }
        out.append("function ");
        self.plain().format_lvalue(name, out);
        self.format_signature(closure, 0, out);
        proof {
            assert(out@ =~= old(out)@ + layout.named_function(name@, closure@));
        }
    }

    #[verifier::rlimit(60)]
    #[verifier::spinoff_prover]
    fn format_list_assign(&self, assign: &Assign, out: &mut String)
        ensures
            final(out)@ == old(out)@ + self.layout().list_assign(assign@),
        decreases assign@.size(), 5 + assign@.left.len(),
    {
        proof {
            nodes::assign_node(*assign);
        }
        self.format_targets(&assign.left, out);
        if assign.right.len() > 0 {
            out.append(" = ");
        }
        self.format_assigned(&assign.right, assign.left.len(), out);
        if assign.parallel {
            out.append(" -- parallel");
        }
        proof {
            assert(out@ =~= old(out)@ + self.layout().list_assign(assign@));
        }
    }

    fn format_update(
        &self,
        target: &LValue,
        operation: BinaryOperation,
        operand: &RValue,
        out: &mut String,
    )
        ensures
            final(out)@ == old(out)@ + self.layout().update(target@, operation, operand@),
        decreases target@.size() + operand@.size(), 4int,
    {
        self.format_lvalue(target, out);
        out.append(" ");
        out.append(operation.as_str());
        out.append("= ");
        self.format_rvalue(operand, out);
        proof {
            assert(out@ =~= old(out)@ + self.layout().update(target@, operation, operand@));
        }
    }

    fn format_bare_assign(&self, assign: &Assign, out: &mut String)
        ensures
            final(out)@ == old(out)@ + self.layout().bare_assign(assign@),
        decreases assign@.size(), 9 + assign@.left.len(),
    {
        proof {
            nodes::assign_node(*assign);
            layout::lemma_assign_parts(assign@);
        }
        match named_closure(assign) {
            Some(closure) => {
                proof {
                    assert(assign@.left[0] == assign.left@[0]@);
                }
                self.format_named_function(&assign.left[0], closure, out);
            },
            None => match compound_assignment(assign) {
                Some((operation, operand)) => {
                    proof {
                        assert(assign@.left[0] == assign.left@[0]@);
                    }
                    self.format_update(&assign.left[0], operation, operand, out);
                },
                None => self.format_list_assign(assign, out),
            },
        }
    }

    pub fn format_assign(&self, assign: &Assign, out: &mut String)
        ensures
            final(out)@ == old(out)@ + self.layout().assign(assign@),
        decreases assign@.size(), 10 + assign@.left.len(),
    {
        proof {
            nodes::assign_node(*assign);
        }
        if assign.prefix {
            out.append("local ");
        }
        self.format_bare_assign(assign, out);
        proof {
            assert(out@ =~= old(out)@ + self.layout().assign(assign@));
        }
    }

    #[verifier::rlimit(50)]
    fn format_method(&self, name: &String, value: &RValue, out: &mut String)
        ensures
            final(out)@ == old(out)@ + self.layout().method(name@, value@),
        decreases value@.size(), 1int,
    {
        let ghost layout = self.layout();
        proof {
            nodes::rvalue_node(*value);
            reveal(RValueView::size);
        }
        self.indent(out);
        out.append("function ");
        out.append(name.as_str());
        match value {
            RValue::Closure(closure) => {
                self.format_signature(closure, 0, out);
                out.append("\n");
                proof {
                    assert(out@ =~= old(out)@ + layout.method(name@, value@));
                }
            },
            _ => {
                let deeper = self.deeper();
                out.append("(...)\n");
                deeper.indent(out);
                out.append("return ");
                deeper.format_rvalue(value, out);
                out.append("(...)\n");
                self.indent(out);
                out.append("end\n");
                proof {
                    assert(out@ =~= old(out)@ + layout.method(name@, value@));
                }
            },
        }
    }

    pub fn format_class(&self, class: &Class, out: &mut String)
        ensures
            final(out)@ == old(out)@ + self.layout().statement(StatementView::Class(class@)),
        decreases RValueView::method_sizes_from(class@.methods, 0), 3int,
    {
        let ghost whole = self.layout();
        out.append("class ");
        class.target.push_to(self.locals, out);
        out.append("\n");
        let deeper = self.deeper();
        let ghost layout = deeper.layout();
        let ghost properties = class@.properties;
        let ghost methods = class@.methods;
        let ghost start = out@;
        let mut index: usize = 0;
        while index < class.properties.len()
            invariant
                index <= class.properties@.len() == properties.len(),
                properties == class@.properties,
                layout == deeper.layout(),
                out@ + layout.properties_from(properties, index as int) =~= start
                    + layout.properties_from(properties, 0),
            decreases class.properties.len() - index,
        {
            deeper.indent(out);
            out.append("public ");
            out.append(class.properties[index].as_str());
            out.append("\n");
            index += 1;
        }
        proof {
            assert(out@ =~= start + layout.properties_from(properties, 0));
        }
        let ghost middle = out@;
        let mut index: usize = 0;
        while index < class.methods.len()
            invariant
                index <= class.methods@.len() == methods.len(),
                methods == class@.methods,
                layout == deeper.layout(),
                RValueView::method_sizes_from(methods, index as int)
                    <= RValueView::method_sizes_from(methods, 0),
                out@ + layout.methods_from(methods, index as int) =~= middle
                    + layout.methods_from(methods, 0),
            decreases class.methods.len() - index,
        {
            proof {
                layout::lemma_method_parts(methods, index as int);
                assert(methods[index as int] == (
                    class.methods@[index as int].0@,
                    class.methods@[index as int].1@,
                ));
            }
            deeper.format_method(&class.methods[index].0, &class.methods[index].1, out);
            index += 1;
        }
        self.indent(out);
        out.append("end");
        proof {
            assert(out@ =~= old(out)@ + whole.statement(StatementView::Class(class@)));
        }
    }

    /// Writes what a branch has past its first arm.
    fn format_otherwise(&self, block: &Block, out: &mut String)
        ensures
            final(out)@ == old(out)@ + self.layout().otherwise(block@),
        decreases StatementView::sizes_from(block@, 0), 5int,
    {
        let ghost layout = self.layout();
        self.indent(out);
        if block.is_empty() {
            out.append("end");
            proof {
                assert(out@ =~= old(out)@ + layout.otherwise(block@));
            }
            return;
        }
        if block.0.len() == 1 {
            proof {
                nodes::statement_node(block.0@[0]);
                model::lemma_statement_sizes_member(block@, 0, 0);
            }
            if matches!(&block.0[0], Statement::If(_)) {
                out.append("else");
                self.format_statement(&block.0[0], out);
                proof {
                    assert(out@ =~= old(out)@ + layout.otherwise(block@));
                }
                return;
            }
        }
        out.append("else\n");
        self.format_nested(block, out);
        out.append("end");
        proof {
            assert(out@ =~= old(out)@ + layout.otherwise(block@));
        }
    }

    pub fn format_return(&self, values: &Vec<RValue>, out: &mut String)
        ensures
            final(out)@ == old(out)@ + self.layout().statement(
                StatementView::Return(RValue::views(values@)),
            ),
        decreases RValueView::sizes_from(RValue::views(values@), 0), 3int,
    {
        if values.len() > 0 {
            out.append("return ");
            self.format_arg_list_inline(values, out);
        } else {
            out.append("return");
        }
        proof {
            assert(out@ =~= old(out)@ + self.layout().statement(
                StatementView::Return(RValue::views(values@)),
            ));
        }
    }

    pub fn format_if(&self, branch: &If, out: &mut String)
        ensures
            final(out)@ == old(out)@ + self.layout().statement(
                StatementView::If { condition: branch.condition@, then_block: branch.then_block@, else_block: branch.else_block@ },
            ),
        decreases (StatementView::If { condition: branch.condition@, then_block: branch.then_block@, else_block: branch.else_block@ }).size(), 0int,
    {
        let ghost view = StatementView::If { condition: branch.condition@, then_block: branch.then_block@, else_block: branch.else_block@ };
        proof {
            layout::lemma_written_parts(view);
        }
        out.append("if ");
        self.format_rvalue(&branch.condition, out);
        out.append(" then\n");
        if !branch.then_block.is_empty() {
            self.deeper().format_block_no_indent(&branch.then_block, out);
            out.append("\n");
        }
        self.format_otherwise(&branch.else_block, out);
        proof {
            assert(out@ =~= old(out)@ + self.layout().statement(view));
        }
    }

    pub fn format_while(&self, each: &While, out: &mut String)
        ensures
            final(out)@ == old(out)@ + self.layout().statement(
                StatementView::While { condition: each.condition@, block: each.block@ },
            ),
        decreases (StatementView::While { condition: each.condition@, block: each.block@ }).size(), 0int,
    {
        let ghost view = StatementView::While { condition: each.condition@, block: each.block@ };
        proof {
            layout::lemma_written_parts(view);
        }
        out.append("while ");
        self.format_rvalue(&each.condition, out);
        out.append(" do\n");
        self.format_nested(&each.block, out);
        out.append("end");
        proof {
            assert(out@ =~= old(out)@ + self.layout().statement(view));
        }
    }

    pub fn format_repeat(&self, each: &Repeat, out: &mut String)
        ensures
            final(out)@ == old(out)@ + self.layout().statement(
                StatementView::Repeat { condition: each.condition@, block: each.block@ },
            ),
        decreases (StatementView::Repeat { condition: each.condition@, block: each.block@ }).size(), 0int,
    {
        let ghost view = StatementView::Repeat { condition: each.condition@, block: each.block@ };
        proof {
            layout::lemma_written_parts(view);
        }
        out.append("repeat\n");
        self.format_nested(&each.block, out);
        out.append("until ");
        self.format_rvalue(&each.condition, out);
        proof {
            assert(out@ =~= old(out)@ + self.layout().statement(view));
        }
    }

    pub fn format_numeric_for(&self, each: &NumericFor, out: &mut String)
        ensures
            final(out)@ == old(out)@ + self.layout().statement(
                StatementView::NumericFor { initial: each.initial@, limit: each.limit@, step: each.step@, counter: each.counter, block: each.block@ },
            ),
        decreases (StatementView::NumericFor { initial: each.initial@, limit: each.limit@, step: each.step@, counter: each.counter, block: each.block@ }).size(), 0int,
    {
        let ghost view = StatementView::NumericFor { initial: each.initial@, limit: each.limit@, step: each.step@, counter: each.counter, block: each.block@ };
        proof {
            layout::lemma_written_parts(view);
        }
        out.append("for ");
        each.counter.push_to(self.locals, out);
        out.append(" = ");
        self.format_rvalue(&each.initial, out);
        out.append(", ");
        self.format_rvalue(&each.limit, out);
        if !is_one(&each.step) {
            out.append(", ");
            self.format_rvalue(&each.step, out);
        }
        out.append(" do\n");
        self.format_nested(&each.block, out);
        out.append("end");
        proof {
            assert(out@ =~= old(out)@ + self.layout().statement(view));
        }
    }

    pub fn format_generic_for(&self, each: &GenericFor, out: &mut String)
        ensures
            final(out)@ == old(out)@ + self.layout().statement(
                StatementView::GenericFor { res_locals: each.res_locals@, right: RValue::views(each.right@), block: each.block@ },
            ),
        decreases (StatementView::GenericFor { res_locals: each.res_locals@, right: RValue::views(each.right@), block: each.block@ }).size(), 0int,
    {
        let ghost view = StatementView::GenericFor { res_locals: each.res_locals@, right: RValue::views(each.right@), block: each.block@ };
        proof {
            layout::lemma_written_parts(view);
        }
        out.append("for ");
        self.format_locals(&each.res_locals, 0, out);
        proof {
            assert(each.res_locals@.skip(0) =~= each.res_locals@);
        }
        out.append(" in ");
        self.format_values(&each.right, count_kept_values(&each.right), out);
        out.append(" do\n");
        self.format_nested(&each.block, out);
        out.append("end");
        proof {
            assert(out@ =~= old(out)@ + self.layout().statement(view));
        }
    }

    pub fn format_do(&self, scope: &Do, out: &mut String)
        ensures
            final(out)@ == old(out)@ + self.layout().statement(
                StatementView::Do(scope.block@),
            ),
        decreases (StatementView::Do(scope.block@)).size(), 0int,
    {
        let ghost view = StatementView::Do(scope.block@);
        proof {
            layout::lemma_written_parts(view);
        }
        out.append("do\n");
        self.format_nested(&scope.block, out);
        out.append("end");
        proof {
            assert(out@ =~= old(out)@ + self.layout().statement(view));
        }
    }

    fn format_set_list(&self, list: &SetList, out: &mut String)
        ensures
            final(out)@ == old(out)@ + self.layout().statement(
                StatementView::SetList { object_local: list.object_local, index: list.index as nat, values: RValue::views(list.values@), tail: RValue::option_view(list.tail) },
            ),
        decreases (StatementView::SetList { object_local: list.object_local, index: list.index as nat, values: RValue::views(list.values@), tail: RValue::option_view(list.tail) }).size(), 0int,
    {
        let ghost view = StatementView::SetList { object_local: list.object_local, index: list.index as nat, values: RValue::views(list.values@), tail: RValue::option_view(list.tail) };
        proof {
            layout::lemma_written_parts(view);
        }
        out.append("__set_list(");
        list.object_local.push_to(self.locals, out);
        out.append(", ");
        push_decimal(out, list.index as u128);
        out.append(", {");
        self.format_values(&list.values, list.values.len(), out);
        if let Some(tail) = &list.tail {
            if list.values.len() > 0 {
                out.append(", ");
            }
            self.format_rvalue(tail, out);
        }
        out.append("})");
        proof {
            assert(out@ =~= old(out)@ + self.layout().statement(view));
        }
    }

    fn format_num_for_next(&self, next: &NumForNext, out: &mut String)
        ensures
            final(out)@ == old(out)@ + self.layout().statement(
                StatementView::NumForNext { counter: next.counter, value: next.value@, limit: next.limit@, step: next.step@ },
            ),
        decreases (StatementView::NumForNext { counter: next.counter, value: next.value@, limit: next.limit@, step: next.step@ }).size(), 0int,
    {
        let ghost view = StatementView::NumForNext { counter: next.counter, value: next.value@, limit: next.limit@, step: next.step@ };
        proof {
            layout::lemma_written_parts(view);
        }
        out.append("__num_for_next(");
        next.counter.push_to(self.locals, out);
        out.append("; ");
        self.format_rvalue(&next.value, out);
        out.append(", ");
        self.format_rvalue(&next.limit, out);
        out.append(", ");
        self.format_rvalue(&next.step, out);
        out.append(")");
        proof {
            assert(out@ =~= old(out)@ + self.layout().statement(view));
        }
    }

    fn format_generic_for_next(&self, next: &GenericForNext, out: &mut String)
        ensures
            final(out)@ == old(out)@ + self.layout().statement(
                StatementView::GenericForNext { res_locals: next.res_locals@, generator: next.generator@, state: next.state@ },
            ),
        decreases (StatementView::GenericForNext { res_locals: next.res_locals@, generator: next.generator@, state: next.state@ }).size(), 0int,
    {
        let ghost view = StatementView::GenericForNext { res_locals: next.res_locals@, generator: next.generator@, state: next.state@ };
        proof {
            layout::lemma_written_parts(view);
        }
        out.append("__generic_for_next(");
        self.format_locals(&next.res_locals, 0, out);
        proof {
            assert(next.res_locals@.skip(0) =~= next.res_locals@);
        }
        out.append("; ");
        self.format_rvalue(&next.generator, out);
        out.append(", ");
        self.format_rvalue(&next.state, out);
        out.append(")");
        proof {
            assert(out@ =~= old(out)@ + self.layout().statement(view));
        }
    }

    /// Writes a statement, past its margin.
    pub fn format_statement(&self, statement: &Statement, out: &mut String)
        ensures
            final(out)@ == old(out)@ + self.layout().statement(statement@),
        decreases statement@.size(), 1int,
    {
        let ghost layout = self.layout();
        let ghost view = statement@;
        proof {
            nodes::statement_node(*statement);
            layout::lemma_written_parts(view);
        }
        match statement {
            Statement::Empty(_) => {
                proof {
                    assert(out@ =~= old(out)@ + layout.statement(view));
                }
            },
            Statement::Call(call) => self.format_call(call, out),
            Statement::MethodCall(call) => self.format_method_call(call, out),
            Statement::Assign(assign) => self.format_assign(assign, out),
            Statement::If(branch) => self.format_if(branch, out),
            Statement::While(each) => self.format_while(each, out),
            Statement::Repeat(each) => self.format_repeat(each, out),
            Statement::NumericFor(each) => self.format_numeric_for(each, out),
            Statement::GenericFor(each) => self.format_generic_for(each, out),
            Statement::Do(scope) => self.format_do(scope, out),
            Statement::Break(_) => out.append("break"),
            Statement::Continue(_) => out.append("continue"),
            Statement::Return(returned) => self.format_return(&returned.values, out),
            Statement::Goto(goto) => {
                out.append("goto ");
                out.append(goto.0.as_str());
                proof {
                    assert(out@ =~= old(out)@ + layout.statement(view));
                }
            },
            Statement::Label(label) => {
                out.append("::");
                out.append(label.0.as_str());
                out.append("::");
                proof {
                    assert(out@ =~= old(out)@ + layout.statement(view));
                }
            },
            Statement::Comment(comment) => {
                out.append("-- ");
                out.append(comment.text.as_str());
                proof {
                    assert(out@ =~= old(out)@ + layout.statement(view));
                }
            },
            Statement::SetList(list) => self.format_set_list(list, out),
            Statement::Close(close) => {
                out.append("__close(");
                self.format_locals(&close.locals, 0, out);
                out.append(")");
                proof {
                    assert(close.locals@.skip(0) =~= close.locals@);
                    assert(out@ =~= old(out)@ + layout.statement(view));
                }
            },
            Statement::Class(class) => self.format_class(class, out),
            Statement::NumForInit(init) => self.format_assign(&init.0, out),
            Statement::NumForNext(next) => self.format_num_for_next(next, out),
            Statement::GenericForInit(init) => self.format_assign(&init.0, out),
            Statement::GenericForNext(next) => self.format_generic_for_next(next, out),
        }
    }
}

} // verus!
