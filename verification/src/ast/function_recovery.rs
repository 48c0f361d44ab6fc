//! Recovering the syntax of function and method definitions.

use vstd::prelude::*;

use crate::ast::literal::{Literal, LiteralView};
use crate::ast::local::{is_valid_identifier, IdentifierContext, Locals, RcLocal};
use crate::ast::nodes::{
    Assign, AssignView, Block, Closure, ClosureView, Function, FunctionView, LValue, LValueView,
    RValue, RValueView, Statement, StatementView,
};
use crate::ast::tally;
use crate::ast::tally::{bump, raise};
use crate::ast::walk::{walk_block, BlockPass};
use crate::ast::{model, nodes};
use crate::text::same_bytes;

verus! {

broadcast use nodes::group_views;

/// How often each recovery applied.
#[derive(Debug, Clone, Copy, PartialEq, Eq, Structural)]
pub struct FunctionRecoveryStats {
    pub local_functions: usize,
    pub methods: usize,
}

impl FunctionRecoveryStats {
    /// Nothing applied yet.
    pub open spec fn none() -> FunctionRecoveryStats {
        FunctionRecoveryStats { local_functions: 0, methods: 0 }
    }
}

impl Default for FunctionRecoveryStats {
    fn default() -> (stats: Self)
        ensures
            stats == FunctionRecoveryStats::none(),
    {
        FunctionRecoveryStats { local_functions: 0, methods: 0 }
    }
}

impl RValueView {
    /// How much an expression speaks for a local being the receiver of a
    /// method: two for each method called on it, one for each member read.
    pub open spec fn receiver_score(self, receiver: RcLocal) -> nat
        decreases self.size(), 0int,
    {
        proof {
            model::lemma_children_smaller(self);
        }
        self.direct_score(receiver) + Self::receiver_scores(self.children(), 0, receiver)
    }

    /// What the expression itself adds.
    pub open spec fn direct_score(self, receiver: RcLocal) -> nat {
        match self {
            RValueView::MethodCall(call) => if *call.value == RValueView::Local(receiver) {
                2
            } else {
                0
            },
            RValueView::Index(index) => if *index.left == RValueView::Local(receiver) {
                1
            } else {
                0
            },
            _ => 0,
        }
    }

    /// The same of the expressions from position `from` on together.
    pub open spec fn receiver_scores(values: Seq<RValueView>, from: int, receiver: RcLocal) -> nat
        decreases Self::sizes_from(values, from), 1int,
    {
        proof {
            model::lemma_sizes_step(values, from);
        }
        if 0 <= from < values.len() {
            values[from].receiver_score(receiver) + Self::receiver_scores(
                values,
                from + 1,
                receiver,
            )
        } else {
            0
        }
    }
}

impl LValueView {
    /// The same of an assignment target: two for each member written.
    pub open spec fn receiver_score(self, receiver: RcLocal) -> nat {
        match self {
            LValueView::Index(index) => (if *index.left == RValueView::Local(receiver) {
                2nat
            } else {
                0nat
            }) + index.left.receiver_score(receiver) + index.right.receiver_score(receiver),
            _ => 0,
        }
    }

    /// The same of the targets from position `from` on together.
    pub open spec fn receiver_scores(targets: Seq<LValueView>, from: int, receiver: RcLocal) -> nat
        decreases targets.len() - from,
    {
        if 0 <= from < targets.len() {
            targets[from].receiver_score(receiver) + Self::receiver_scores(
                targets,
                from + 1,
                receiver,
            )
        } else {
            0
        }
    }
}

impl StatementView {
    /// The same of a statement and the branches and loops in it.
    pub open spec fn receiver_score(self, receiver: RcLocal) -> nat
        decreases self.size(), 0int, 0int,
    {
        proof {
            model::lemma_statement_parts(self);
        }
        RValueView::receiver_scores(self.rvalues(), 0, receiver) + (match self {
            StatementView::Assign(assign) => LValueView::receiver_scores(assign.left, 0, receiver),
            _ => 0,
        }) + (if self is Do {
            0
        } else {
            Self::block_scores(self.blocks(), 0, receiver)
        })
    }

    /// The same of the blocks from position `from` on together.
    pub open spec fn block_scores(
        blocks: Seq<Seq<StatementView>>,
        from: int,
        receiver: RcLocal,
    ) -> nat
        decreases Self::block_sizes_from(blocks, from), 2int, blocks.len() - from,
    {
        if 0 <= from < blocks.len() {
            Self::receiver_scores(blocks[from], 0, receiver) + Self::block_scores(
                blocks,
                from + 1,
                receiver,
            )
        } else {
            0
        }
    }

    /// The same of the statements from position `from` on together.
    pub open spec fn receiver_scores(
        statements: Seq<StatementView>,
        from: int,
        receiver: RcLocal,
    ) -> nat
        decreases Self::sizes_from(statements, from), 1int, 0int,
    {
        proof {
            model::lemma_statement_sizes_step(statements, from);
        }
        if 0 <= from < statements.len() {
            statements[from].receiver_score(receiver) + Self::receiver_scores(
                statements,
                from + 1,
                receiver,
            )
        } else {
            0
        }
    }
}

/// A score, counted no further than two.
pub open spec fn capped(score: nat) -> nat {
    if score < 2 {
        score
    } else {
        2
    }
}

fn add_scores(left: u8, right: u8) -> (sum: u8)
    requires
        left <= 2,
        right <= 2,
    ensures
        sum == capped((left + right) as nat),
{
    if left + right < 2 {
        left + right
    } else {
        2
    }
}

fn score_value(value: &RValue, receiver: RcLocal) -> (score: u8)
    ensures
        score == capped(value@.receiver_score(receiver)),
    decreases value@.size(), 0int,
{
    let ghost whole = value@;
    proof {
        nodes::rvalue_node(*value);
        model::lemma_children_smaller(whole);
    }
    let direct: u8 = match value {
        RValue::MethodCall(call) => if call.value.as_local() == Some(receiver) {
            2
        } else {
            0
        },
        RValue::Index(index) => if index.left.as_local() == Some(receiver) {
            1
        } else {
            0
        },
        _ => 0,
    };
    add_scores(direct, score_values(value.rvalues(), receiver))
}

fn score_values(values: Vec<&RValue>, receiver: RcLocal) -> (score: u8)
    ensures
        score == capped(RValueView::receiver_scores(RValue::borrowed(values@), 0, receiver)),
    decreases RValueView::sizes_from(RValue::borrowed(values@), 0), 1int,
{
    let ghost views = RValue::borrowed(values@);
    let mut score: u8 = 0;
    let mut index: usize = 0;
    while index < values.len()
        invariant
            index <= values@.len() == views.len(),
            views == RValue::borrowed(values@),
            score <= 2,
            capped(
                score as nat + RValueView::receiver_scores(views, index as int, receiver),
            ) == capped(RValueView::receiver_scores(views, 0, receiver)),
        decreases values.len() - index,
    {
        proof {
            model::lemma_sizes_member(views, 0, index as int);
        }
        score = add_scores(score, score_value(values[index], receiver));
        index += 1;
    }
    score
}

fn score_targets(targets: &Vec<LValue>, receiver: RcLocal) -> (score: u8)
    ensures
        score == capped(LValueView::receiver_scores(LValue::views(targets@), 0, receiver)),
{
    let ghost views = LValue::views(targets@);
    let mut score: u8 = 0;
    let mut index: usize = 0;
    while index < targets.len()
        invariant
            index <= targets@.len() == views.len(),
            views == LValue::views(targets@),
            score <= 2,
            capped(
                score as nat + LValueView::receiver_scores(views, index as int, receiver),
            ) == capped(LValueView::receiver_scores(views, 0, receiver)),
        decreases targets.len() - index,
    {
        proof {
            nodes::lvalue_node(targets@[index as int]);
        }
        if let LValue::Index(target) = &targets[index] {
            if target.left.as_local() == Some(receiver) {
                score = 2;
            }
            score = add_scores(score, score_value(&target.left, receiver));
            score = add_scores(score, score_value(&target.right, receiver));
        }
        index += 1;
    }
    score
}

fn score_statement(statement: &Statement, receiver: RcLocal) -> (score: u8)
    ensures
        score == capped(statement@.receiver_score(receiver)),
    decreases statement@.size(), 0int, 0int,
{
    let ghost whole = statement@;
    proof {
        nodes::statement_node(*statement);
        model::lemma_statement_parts(whole);
    }
    let mut score: u8 = score_values(statement.rvalues(), receiver);
    if let Statement::Assign(assign) = statement {
        proof {
            nodes::assign_node(*assign);
        }
        score = add_scores(score, score_targets(&assign.left, receiver));
    }
    if matches!(statement, Statement::Do(_)) {
        return score;
    }
    let ghost direct = score as nat;
    let blocks = statement.blocks();
    let ghost views = whole.blocks();
    let mut index: usize = 0;
    while index < blocks.len()
        invariant
            index <= blocks@.len() == views.len(),
            views == Block::borrowed(blocks@),
            views == whole.blocks(),
            whole == statement@,
            StatementView::block_sizes_from(views, 0) < whole.size(),
            score <= 2,
            capped(
                score as nat + StatementView::block_scores(views, index as int, receiver),
            ) == capped(whole.receiver_score(receiver)),
        decreases blocks.len() - index,
    {
        proof {
            model::lemma_block_sizes_member(views, 0, index as int);
        }
        score = add_scores(score, receiver_score_block(blocks[index], receiver));
        index += 1;
    }
    score
}

fn receiver_score_block(block: &Block, receiver: RcLocal) -> (score: u8)
    ensures
        score == capped(StatementView::receiver_scores(block@, 0, receiver)),
    decreases StatementView::sizes_from(block@, 0), 1int, 0int,
{
    let ghost views = block@;
    let mut score: u8 = 0;
    let mut index: usize = 0;
    while index < block.0.len()
        invariant
            index <= block.0@.len() == views.len(),
            views == block@,
            score <= 2,
            capped(
                score as nat + StatementView::receiver_scores(views, index as int, receiver),
            ) == capped(StatementView::receiver_scores(views, 0, receiver)),
        decreases block.0.len() - index,
    {
        proof {
            model::lemma_statement_sizes_member(views, 0, index as int);
        }
        score = add_scores(score, score_statement(&block.0[index], receiver));
        index += 1;
    }
    score
}

/// The local that a statement declares without a value.
pub open spec fn nil_declaration(statement: StatementView) -> Option<RcLocal> {
    match statement {
        StatementView::Assign(assign) => if assign.prefix && assign.left.len() == 1 && (
        assign.right.len() == 0 || (assign.right.len() == 1 && assign.right[0]
            == RValueView::Literal(LiteralView::Nil))) {
            match assign.left[0] {
                LValueView::Local(local) => Some(local),
                _ => None,
            }
        } else {
            None
        },
        _ => None,
    }
}

/// The declaration that a plain assignment of a named closure to a local is
/// where the local was declared right before.
pub open spec fn declared_function(statement: StatementView, local: RcLocal) -> Option<
    StatementView,
> {
    match statement {
        StatementView::Assign(assign) => if !assign.prefix && !assign.parallel && assign.left
            == seq![LValueView::Local(local)] && assign.right.len() == 1 {
            match assign.right[0] {
                RValueView::Closure(closure) => if closure.function.name is Some {
                    Some(StatementView::Assign(AssignView { prefix: true, ..assign }))
                } else {
                    None
                },
                _ => None,
            }
        } else {
            None
        },
        _ => None,
    }
}

/// The declaration that two statements are together, where they are one.
pub open spec fn local_function(first: StatementView, second: StatementView) -> Option<
    StatementView,
> {
    match nil_declaration(first) {
        Some(local) => declared_function(second, local),
        None => None,
    }
}

/// The statements from position `from` on with each pair that declares a local
/// function joined, and how many there were.
pub open spec fn collapsed_from(block: Seq<StatementView>, from: int) -> (nat, Seq<StatementView>)
    decreases block.len() - from,
{
    if 0 <= from < block.len() {
        if from + 1 < block.len() && local_function(block[from], block[from + 1]) is Some {
            let (count, rest) = collapsed_from(block, from + 2);
            (count + 1, seq![local_function(block[from], block[from + 1])->0] + rest)
        } else {
            let (count, rest) = collapsed_from(block, from + 1);
            (count, seq![block[from]] + rest)
        }
    } else {
        (0, Seq::empty())
    }
}

/// The receiver of the method that a statement defines, and the statement that
/// defines it as one: a function that is stored under its own name, and whose
/// body uses its first parameter as a receiver.
pub open spec fn as_method(statement: StatementView) -> Option<(RcLocal, StatementView)> {
    match statement {
        StatementView::Assign(assign) => if assign.prefix || assign.parallel || assign.left.len()
            != 1 || assign.right.len() != 1 {
            None
        } else {
            match (assign.left[0], assign.right[0]) {
                (LValueView::Index(target), RValueView::Closure(closure)) => match *target.right {
                    RValueView::Literal(LiteralView::String(method)) => if names_method(
                        closure,
                        method,
                    ) {
                        Some(
                            (
                                closure.function.parameters[0],
                                StatementView::Assign(
                                    AssignView {
                                        right: seq![RValueView::Closure(as_method_closure(closure))],
                                        ..assign
                                    },
                                ),
                            ),
                        )
                    } else {
                        None
                    },
                    _ => None,
                },
                _ => None,
            }
        },
        _ => None,
    }
}

/// Whether a closure is the method of a name.
pub open spec fn names_method(closure: ClosureView, method: Seq<u8>) -> bool {
    &&& IdentifierContext::is_identifier(method)
    &&& closure.function.name is Some
    &&& vstd::utf8::encode_utf8(closure.function.name->0) == method
    &&& closure.function.parameters.len() > 0
    &&& StatementView::receiver_scores(
        closure.function.body,
        0,
        closure.function.parameters[0],
    ) >= 2
}

/// A closure as a method.
pub open spec fn as_method_closure(closure: ClosureView) -> ClosureView {
    ClosureView {
        function: Box::new(FunctionView { is_method: true, ..*closure.function }),
        ..closure
    }
}

/// What a recovery of functions notes: how often it applied, and the locals
/// that are receivers.
#[verifier::ext_equal]
pub struct FunctionNotes {
    pub stats: FunctionRecoveryStats,
    pub receivers: Seq<RcLocal>,
}

/// The statements from position `from` on with each definition of a method
/// written as one.
pub open spec fn methods_from(block: Seq<StatementView>, from: int, notes: FunctionNotes) -> (
    FunctionNotes,
    Seq<StatementView>,
)
    decreases block.len() - from,
{
    if 0 <= from < block.len() {
        match as_method(block[from]) {
            Some((receiver, method)) => {
                let (last, rest) = methods_from(
                    block,
                    from + 1,
                    FunctionNotes {
                        stats: FunctionRecoveryStats {
                            methods: tally::bumped(notes.stats.methods),
                            ..notes.stats
                        },
                        receivers: notes.receivers.push(receiver),
                    },
                );
                (last, seq![method] + rest)
            },
            None => {
                let (last, rest) = methods_from(block, from + 1, notes);
                (last, seq![block[from]] + rest)
            },
        }
    } else {
        (notes, Seq::empty())
    }
}

fn is_nil_declaration(statement: &Statement) -> (local: Option<RcLocal>)
    ensures
        local == nil_declaration(statement@),
{
    match statement.as_assign() {
        Some(assign) => {
            proof {
                nodes::assign_node(*assign);
            }
            if !assign.prefix || assign.left.len() != 1 || assign.right.len() > 1 {
                return None;
            }
            if assign.right.len() == 1 {
                proof {
                    nodes::rvalue_node(assign.right@[0]);
                }
                if !matches!(&assign.right[0], RValue::Literal(Literal::Nil)) {
                    return None;
                }
            }
            assign.left[0].as_local()
        },
        None => None,
    }
}

/// Whether a statement is the plain assignment of a named closure to a local.
fn defines_local(statement: &Statement, local: RcLocal) -> (result: bool)
    ensures
        result == (declared_function(statement@, local) is Some),
{
    match statement.as_assign() {
        Some(assign) => {
            proof {
                nodes::assign_node(*assign);
                if assign@.left == seq![LValueView::Local(local)] {
                    assert(assign@.left.len() == 1);
                    assert(assign@.left[0] == LValueView::Local(local));
                }
            }
            if assign.prefix || assign.parallel || assign.left.len() != 1 || assign.right.len()
                != 1 {
                return false;
            }
            if assign.left[0].as_local() != Some(local) {
                return false;
            }
            proof {
                nodes::rvalue_node(assign.right@[0]);
                assert(assign@.left =~= seq![LValueView::Local(local)]);
            }
            match &assign.right[0] {
                RValue::Closure(closure) => closure.function.name.is_some(),
                _ => false,
            }
        },
        None => false,
    }
}

fn collapse_local_functions(block: Vec<Statement>) -> (result: (Vec<Statement>, usize))
    ensures
        (result.1 as nat, Statement::views(result.0@)) == collapsed_from(
            Statement::views(block@),
            0,
        ),
{
    let ghost views = Statement::views(block@);
    let ghost whole = collapsed_from(views, 0);
    let count: usize = block.len();
    let mut rest = block;
    let mut done: Vec<Statement> = Vec::new();
    let mut recovered: usize = 0;
    let mut index: usize = 0;
    proof {
        assert(Statement::views(done@) + whole.1 =~= whole.1);
    }
    while index < count
        invariant
            recovered <= index <= count == views.len(),
            rest@.len() == count - index,
            Statement::views(rest@) =~= views.skip(index as int),
            ({
                let (more, remaining) = collapsed_from(views, index as int);
                whole == ((recovered + more) as nat, Statement::views(done@) + remaining)
            }),
        decreases count - index,
    {
        let ghost before = Statement::views(rest@);
        let ghost held = Statement::views(done@);
        let ghost remaining = collapsed_from(views, index as int).1;
        proof {
            assert(before[0] == views[index as int]);
        }
        let joined = if count - index > 1 {
            proof {
                assert(before[1] == views[index + 1]);
            }
            match is_nil_declaration(&rest[0]) {
                Some(local) => defines_local(&rest[1], local),
                None => false,
            }
        } else {
            false
        };
        let first = rest.remove(0);
        proof {
            assert(Statement::views(rest@) =~= before.skip(1));
        }
        if joined {
            let second = rest.remove(0);
            proof {
                assert(Statement::views(rest@) =~= before.skip(2));
                nodes::statement_node(second);
            }
            if let Statement::Assign(assign) = second {
                let Assign { left, right, prefix, parallel } = assign;
                let declared = Assign { left, right, prefix: true, parallel };
                let statement = Statement::Assign(declared);
                proof {
                    nodes::assign_node(assign);
                    nodes::assign_node(declared);
                    nodes::statement_node(statement);
                    assert(local_function(views[index as int], views[index + 1]) == Some(
                        statement@,
                    ));
                }
                done.push(statement);
                proof {
                    let (_, fewer) = collapsed_from(views, index + 2);
                    assert(Statement::views(done@) =~= held.push(statement@));
                    assert(Statement::views(done@) + fewer =~= held + remaining);
                }
            }
            recovered += 1;
            index += 2;
        } else {
            done.push(first);
            proof {
                let (_, fewer) = collapsed_from(views, index + 1);
                assert(Statement::views(done@) =~= held.push(views[index as int]));
                assert(Statement::views(done@) + fewer =~= held + remaining);
            }
            index += 1;
        }
    }
    proof {
        assert(Statement::views(done@) + Seq::<StatementView>::empty() =~= Statement::views(done@));
    }
    (done, recovered)
}

/// The receiver of the method that a statement defines.
fn find_receiver(statement: &Statement) -> (receiver: Option<RcLocal>)
    ensures
        receiver == (match as_method(statement@) {
            Some((receiver, _)) => Some(receiver),
            None => None,
        }),
{
    let assign = match statement.as_assign() {
        Some(assign) => assign,
        None => {
            return None;
        },
    };
    proof {
        nodes::assign_node(*assign);
    }
    if assign.prefix || assign.parallel || assign.left.len() != 1 || assign.right.len() != 1 {
        return None;
    }
    proof {
        nodes::lvalue_node(assign.left@[0]);
        nodes::rvalue_node(assign.right@[0]);
        assert(assign@.left[0] == assign.left@[0]@);
        assert(assign@.right[0] == assign.right@[0]@);
    }
    let target = match &assign.left[0] {
        LValue::Index(target) => target,
        _ => {
            return None;
        },
    };
    proof {
        nodes::rvalue_node(*target.right);
    }
    let method = match &*target.right {
        RValue::Literal(Literal::String(method)) => method,
        _ => {
            return None;
        },
    };
    let closure = match &assign.right[0] {
        RValue::Closure(closure) => closure,
        _ => {
            return None;
        },
    };
    if !is_valid_identifier(method.as_slice()) {
        return None;
    }
    let named = match &closure.function.name {
        Some(name) => same_bytes(name.as_str().as_bytes(), method.as_slice()),
        None => false,
    };
    if !named || closure.function.parameters.len() == 0 {
        return None;
    }
    let receiver = closure.function.parameters[0];
    if receiver_score_block(&closure.function.body, receiver) < 2 {
        return None;
    }
    Some(receiver)
}

/// The statement that defines a method as one.
fn mark_method(statement: Statement) -> (marked: Statement)
    requires
        as_method(statement@) is Some,
    ensures
        match as_method(statement@) {
            Some((_, method)) => method == marked@,
            None => false,
        },
{
    let ghost whole = statement@;
    proof {
        nodes::statement_node(statement);
    }
    match statement {
        Statement::Assign(assign) => {
            let Assign { left, right, prefix, parallel } = assign;
            proof {
                nodes::assign_node(assign);
            }
            let mut right = right;
            let closure = right.remove(0);
            proof {
                nodes::rvalue_node(closure);
                assert(whole->Assign_0.right[0] == closure@);
            }
            if let RValue::Closure(closure) = closure {
                let Closure { function, upvalues } = closure;
                let Function { id, name, parameters, is_variadic, is_method, body } = *function;
                let method = RValue::Closure(
                    Closure {
                        function: Box::new(
                            Function { id, name, parameters, is_variadic, is_method: true, body },
                        ),
                        upvalues,
                    },
                );
                let mut right: Vec<RValue> = Vec::new();
                right.push(method);
                let assign = Assign { left, right, prefix, parallel };
                let marked = Statement::Assign(assign);
                proof {
                    nodes::rvalue_node(method);
                    nodes::assign_node(assign);
                    nodes::statement_node(marked);
                    assert(RValue::views(right@) =~= seq![method@]);
                }
                marked
            } else {
                Statement::Assign(Assign { left, right, prefix, parallel })
            }
        },
        other => other,
    }
}

/// Recovers the functions of a tree, and counts them.
pub struct FunctionRecovery {
    pub stats: FunctionRecoveryStats,
    pub receivers: Vec<RcLocal>,
}

impl BlockPass for FunctionRecovery {
    type Notes = FunctionNotes;

    open spec fn notes(&self) -> FunctionNotes {
        FunctionNotes { stats: self.stats, receivers: self.receivers@ }
    }

    open spec fn enters_closures() -> bool {
        true
    }

    open spec fn enters_scopes() -> bool {
        false
    }

    open spec fn settled(value: RValueView) -> RValueView {
        value
    }

    open spec fn finished(notes: FunctionNotes, block: Seq<StatementView>, looped: bool) -> (
        FunctionNotes,
        Seq<StatementView>,
    ) {
        let (count, block) = collapsed_from(block, 0);
        methods_from(
            block,
            0,
            FunctionNotes {
                stats: FunctionRecoveryStats {
                    local_functions: tally::raised(notes.stats.local_functions, count),
                    ..notes.stats
                },
                ..notes
            },
        )
    }

    fn closures_entered() -> (result: bool) {
        true
    }

    fn scopes_entered() -> (result: bool) {
        false
    }

    fn settle(value: RValue) -> (settled: RValue) {
        value
    }

    fn finish(&mut self, block: Block, looped: bool) -> (done: Block) {
        let (block, count) = collapse_local_functions(block.0);
        let local_functions: usize = raise(self.stats.local_functions, count);
        self.stats = FunctionRecoveryStats { local_functions, methods: self.stats.methods };
        let ghost views = Statement::views(block@);
        let ghost whole = methods_from(views, 0, self.notes());
        let count: usize = block.len();
        let mut rest = block;
        let mut done: Vec<Statement> = Vec::new();
        let mut index: usize = 0;
        proof {
            assert(Statement::views(done@) + whole.1 =~= whole.1);
        }
        while index < count
            invariant
                index <= count == views.len(),
                rest@.len() == count - index,
                Statement::views(rest@) =~= views.skip(index as int),
                ({
                    let (last, remaining) = methods_from(views, index as int, self.notes());
                    whole == (last, Statement::views(done@) + remaining)
                }),
            decreases count - index,
        {
            let ghost before = Statement::views(rest@);
            let ghost held = Statement::views(done@);
            let ghost noted = self.notes();
            let statement = rest.remove(0);
            let ghost put;
            proof {
                assert(before[0] == views[index as int]);
                assert(Statement::views(rest@) =~= before.skip(1));
            }
            match find_receiver(&statement) {
                Some(receiver) => {
                    let method = mark_method(statement);
                    proof {
                        put = method@;
                    }
                    done.push(method);
                    self.receivers.push(receiver);
                    let methods: usize = bump(self.stats.methods);
                    self.stats = FunctionRecoveryStats {
                        local_functions: self.stats.local_functions,
                        methods,
                    };
                },
                None => {
                    proof {
                        put = statement@;
                    }
                    done.push(statement);
                },
            }
            proof {
                let (_, remaining) = methods_from(views, index as int, noted);
                let (_, fewer) = methods_from(views, index + 1, self.notes());
                assert(Statement::views(done@) =~= held.push(put));
                assert(Statement::views(done@) + fewer =~= held + remaining);
            }
            index += 1;
        }
        let done = Block(done);
        proof {
            assert(done@ + Seq::<StatementView>::empty() =~= done@);
        }
        done
    }
}

/// The names of locals, with those of the receivers made `self`.
pub open spec fn with_receivers(
    names: Seq<Option<Seq<char>>>,
    receivers: Seq<RcLocal>,
) -> Seq<Option<Seq<char>>> {
    Seq::new(
        names.len(),
        |i: int|
            if exists|k: int| 0 <= k < receivers.len() && (#[trigger] receivers[k]).id == i {
                Some("self"@)
            } else {
                names[i]
            },
    )
}

fn name_receivers(locals: &mut Locals, receivers: &Vec<RcLocal>)
    ensures
        final(locals)@ == with_receivers(old(locals)@, receivers@),
{
    let mut index: usize = 0;
    proof {
        assert(locals@ =~= with_receivers(old(locals)@, receivers@.take(0)));
    }
    while index < receivers.len()
        invariant
            index <= receivers@.len(),
            locals@.len() == old(locals)@.len(),
            locals@ == with_receivers(old(locals)@, receivers@.take(index as int)),
        decreases receivers.len() - index,
    {
        let receiver = receivers[index];
        let ghost less = receivers@.take(index as int);
        let ghost more = receivers@.take(index + 1);
        let ghost before = locals@;
        if receiver.id < locals.len() as u64 {
            let mut name = String::new();
            name.append("self");
            proof {
                assert(name@ =~= "self"@);
            }
            locals.set_name(receiver, Some(name));
        }
        proof {
            assert forall|i: int| 0 <= i < before.len() implies locals@[i] == with_receivers(
                old(locals)@,
                more,
            )[i] by {
                if exists|k: int| 0 <= k < less.len() && (#[trigger] less[k]).id == i {
                    let k = choose|k: int| 0 <= k < less.len() && (#[trigger] less[k]).id == i;
                    assert(more[k].id == i);
                }
                if i == receiver.id {
                    assert(more[index as int].id == i);
                } else if exists|k: int| 0 <= k < more.len() && (#[trigger] more[k]).id == i {
                    let k = choose|k: int| 0 <= k < more.len() && (#[trigger] more[k]).id == i;
                    assert(less[k].id == i);
                }
            }
            assert(locals@ =~= with_receivers(old(locals)@, more));
        }
        index += 1;
    }
    proof {
        assert(receivers@.take(receivers@.len() as int) =~= receivers@);
    }
}

/// Recovers the definitions of local functions and of methods in a block, and
/// names the receivers of the methods.
///
/// What speaks for a receiver is not changed by recovering what is nested, so
/// nested functions come first.
pub fn recover_function_syntax(block: Block, locals: &mut Locals) -> (result: (
    Block,
    FunctionRecoveryStats,
))
    ensures
        ({
            let (notes, walked) = StatementView::walked_block::<FunctionRecovery>(
                block@,
                FunctionNotes { stats: FunctionRecoveryStats::none(), receivers: Seq::empty() },
                false,
            );
            &&& result.0@ == walked
            &&& result.1 == notes.stats
            &&& final(locals)@ == with_receivers(old(locals)@, notes.receivers)
        }),
{
    let mut pass = FunctionRecovery {
        stats: FunctionRecoveryStats::default(),
        receivers: Vec::new(),
    };
    proof {
        assert(pass.notes() =~= (FunctionNotes {
            stats: FunctionRecoveryStats::none(),
            receivers: Seq::empty(),
        }));
    }
    let block = walk_block(block, &mut pass, false);
    name_receivers(locals, &pass.receivers);
    (block, pass.stats)
}

} // verus!
