//! Taking statements apart into the expressions and blocks in them, and
//! putting them together again.

use vstd::prelude::*;

use crate::ast::nodes::{
    Assign, Block, Call, Class, Do, GenericFor, GenericForInit, GenericForNext, If, Index, LValue,
    LValueView, MethodCall, NumForInit, NumForNext, NumericFor, RValue, RValueView, Repeat, Return,
    SetList, Statement, StatementView, While,
};
use crate::ast::shape::{borrow_all, borrow_methods, borrow_operands, join_operands, nil};
use crate::ast::{model, nodes};

verus! {

broadcast use nodes::group_views;

/// Whether two lists of targets differ in the operands of their indices only.
pub open spec fn same_targets(left: Seq<LValueView>, right: Seq<LValueView>) -> bool {
    &&& left.len() == right.len()
    &&& forall|i: int|
        0 <= i < left.len() ==> {
            &&& (left[i] is Index) == (#[trigger] right[i] is Index)
            &&& !(left[i] is Index) ==> left[i] == right[i]
        }
}

proof fn lemma_same_targets(
    left: Seq<LValueView>,
    right: Seq<LValueView>,
    from: int,
    operands: Seq<RValueView>,
    at: int,
)
    requires
        same_targets(left, right),
        0 <= from,
    ensures
        LValueView::arity_from(left, from) == LValueView::arity_from(right, from),
        LValueView::refilled_from(left, from, operands, at) == LValueView::refilled_from(
            right,
            from,
            operands,
            at,
        ),
    decreases left.len() - from,
{
    if from < left.len() {
        assert((left[from] is Index) == (right[from] is Index));
        lemma_same_targets(left, right, from + 1, operands, at + left[from].arity());
    }
}

fn split_targets(targets: Vec<LValue>) -> (parts: (Vec<LValue>, Vec<RValue>))
    ensures
        RValue::views(parts.1@) == LValueView::children_from(LValue::views(targets@), 0),
        same_targets(LValue::views(parts.0@), LValue::views(targets@)),
{
    let mut rest = targets;
    let mut shell: Vec<LValue> = Vec::new();
    let mut operands: Vec<RValue> = Vec::new();
    let ghost views = LValue::views(targets@);
    let count: usize = rest.len();
    let mut index: usize = 0;
    while index < count
        invariant
            index <= count == views.len(),
            shell@.len() == index,
            rest@.len() == count - index,
            LValue::views(rest@) =~= views.skip(index as int),
            RValue::views(operands@) + LValueView::children_from(views, index as int)
                =~= LValueView::children_from(views, 0),
            forall|i: int|
                0 <= i < index ==> {
                    &&& (LValue::views(shell@)[i] is Index) == (#[trigger] views[i] is Index)
                    &&& !(views[i] is Index) ==> LValue::views(shell@)[i] == views[i]
                },
        decreases count - index,
    {
        let ghost before = LValue::views(rest@);
        let ghost held = RValue::views(operands@);
        let target = rest.remove(0);
        proof {
            nodes::lvalue_node(target);
            assert(before[0] == views[index as int]);
            assert(LValue::views(rest@) =~= before.skip(1));
        }
        match target {
            LValue::Index(place) => {
                operands.push(*place.left);
                operands.push(*place.right);
                let emptied = LValue::Index(
                    Index { left: Box::new(nil()), right: Box::new(nil()) },
                );
                proof {
                    nodes::lvalue_node(emptied);
                    assert(RValue::views(operands@) =~= held + views[index as int].children());
                }
                shell.push(emptied);
            },
            other => {
                proof {
                    assert(RValue::views(operands@) =~= held + views[index as int].children());
                }
                shell.push(other);
            },
        }
        index += 1;
    }
    (shell, operands)
}

fn refill_targets(targets: Vec<LValue>, operands: Vec<RValue>) -> (parts: (
    Vec<LValue>,
    Vec<RValue>,
))
    requires
        operands@.len() >= LValueView::arity_from(LValue::views(targets@), 0),
    ensures
        LValue::views(parts.0@) == LValueView::refilled_from(
            LValue::views(targets@),
            0,
            RValue::views(operands@),
            0,
        ),
        RValue::views(parts.1@) == RValue::views(operands@).skip(
            LValueView::arity_from(LValue::views(targets@), 0) as int,
        ),
{
    let ghost views = LValue::views(targets@);
    let ghost given = RValue::views(operands@);
    let count: usize = targets.len();
    let mut targets = targets;
    let mut rest = operands;
    let mut refilled: Vec<LValue> = Vec::new();
    let mut index: usize = 0;
    let ghost mut at: int = 0;
    proof {
        assert(given.skip(0) =~= given);
    }
    while index < count
        invariant
            index <= count == views.len(),
            targets@.len() == count - index,
            LValue::views(targets@) =~= views.skip(index as int),
            0 <= at,
            at + LValueView::arity_from(views, index as int) == LValueView::arity_from(views, 0),
            LValueView::arity_from(views, 0) <= given.len(),
            rest@.len() == given.len() - at,
            RValue::views(rest@) == given.skip(at),
            LValue::views(refilled@) + LValueView::refilled_from(views, index as int, given, at)
                =~= LValueView::refilled_from(views, 0, given, 0),
        decreases count - index,
    {
        let ghost left = RValue::views(rest@);
        let ghost before = LValue::views(targets@);
        let target = targets.remove(0);
        proof {
            nodes::lvalue_node(target);
            assert(before[0] == views[index as int]);
            assert(LValue::views(targets@) =~= before.skip(1));
        }
        match target {
            LValue::Index(_) => {
                let place = rest.remove(0);
                let key = rest.remove(0);
                proof {
                    assert(RValue::views(rest@) =~= left.skip(2));
                    assert(left.skip(2) =~= given.skip(at + 2));
                    assert(place@ == left[0] && key@ == left[1]);
                    at = at + 2;
                }
                let filled = LValue::Index(Index { left: Box::new(place), right: Box::new(key) });
                proof {
                    nodes::lvalue_node(filled);
                }
                refilled.push(filled);
            },
            other => {
                refilled.push(other);
            },
        }
        index += 1;
    }
    (refilled, rest)
}

impl Assign {
    fn into_roots(self) -> (parts: (Assign, Vec<RValue>))
        ensures
            RValue::views(parts.1@) == self@.roots(),
            forall|roots: Seq<RValueView>| #[trigger]
                parts.0@.with_roots(roots) == self@.with_roots(roots),
            LValueView::arity_from(parts.0@.left, 0) == LValueView::arity_from(self@.left, 0),
            self@.roots().len() >= LValueView::arity_from(self@.left, 0),
    {
        let ghost whole = self@;
        let Assign { left, right, prefix, parallel } = self;
        let (shell, mut roots) = split_targets(left);
        let ghost operands = RValue::views(roots@);
        let mut right = right;
        let ghost values = RValue::views(right@);
        roots.append(&mut right);
        let emptied = Assign { left: shell, right: Vec::new(), prefix, parallel };
        proof {
            nodes::assign_node(self);
            nodes::assign_node(emptied);
            assert(RValue::views(roots@) =~= operands + values);
            model::lemma_target_arity(whole.left, 0);
            assert forall|given: Seq<RValueView>| #[trigger]
                emptied@.with_roots(given) == whole.with_roots(given) by {
                lemma_same_targets(emptied@.left, whole.left, 0, given, 0);
            }
            lemma_same_targets(emptied@.left, whole.left, 0, Seq::empty(), 0);
        }
        (emptied, roots)
    }

    fn refill(self, roots: Vec<RValue>) -> (assign: Assign)
        requires
            roots@.len() >= LValueView::arity_from(self@.left, 0),
        ensures
            assign@ == self@.with_roots(RValue::views(roots@)),
    {
        proof {
            nodes::assign_node(self);
        }
        let (left, right) = refill_targets(self.left, roots);
        let assign = Assign { left, right, prefix: self.prefix, parallel: self.parallel };
        proof {
            nodes::assign_node(assign);
        }
        assign
    }
}

/// Whether two statements are of one kind, so that giving them the same
/// expressions and blocks makes them the same statement.
pub open spec fn same_form(left: StatementView, right: StatementView) -> bool {
    &&& forall|roots: Seq<RValueView>, blocks: Seq<Seq<StatementView>>|
        #![trigger left.with_roots(roots).with_blocks(blocks)]
        left.with_roots(roots).with_blocks(blocks) == right.with_roots(roots).with_blocks(blocks)
    &&& forall|count: int| #[trigger] left.takes(count) == right.takes(count)
    &&& left.blocks().len() == right.blocks().len()
}

fn one(value: RValue) -> (values: Vec<RValue>)
    ensures
        RValue::views(values@) == seq![value@],
{
    let mut values: Vec<RValue> = Vec::new();
    values.push(value);
    proof {
        assert(RValue::views(values@) =~= seq![value@]);
    }
    values
}

fn two(first: RValue, second: RValue) -> (values: Vec<RValue>)
    ensures
        RValue::views(values@) == seq![first@, second@],
{
    let mut values: Vec<RValue> = Vec::new();
    values.push(first);
    values.push(second);
    proof {
        assert(RValue::views(values@) =~= seq![first@, second@]);
    }
    values
}

fn no_values() -> (values: Vec<RValue>)
    ensures
        RValue::views(values@) == Seq::<RValueView>::empty(),
{
    let values: Vec<RValue> = Vec::new();
    proof {
        assert(RValue::views(values@) =~= Seq::<RValueView>::empty());
    }
    values
}

fn no_blocks() -> (blocks: Vec<Block>)
    ensures
        Block::views(blocks@) == Seq::<Seq<StatementView>>::empty(),
{
    let blocks: Vec<Block> = Vec::new();
    proof {
        assert(Block::views(blocks@) =~= Seq::<Seq<StatementView>>::empty());
    }
    blocks
}

fn one_block(block: Block) -> (blocks: Vec<Block>)
    ensures
        Block::views(blocks@) == seq![block@],
{
    let mut blocks: Vec<Block> = Vec::new();
    blocks.push(block);
    proof {
        assert(Block::views(blocks@) =~= seq![block@]);
    }
    blocks
}

fn empty_block() -> (block: Block)
    ensures
        block@ == Seq::<StatementView>::empty(),
{
    let block = Block(Vec::new());
    proof {
        assert(block@ =~= Seq::<StatementView>::empty());
    }
    block
}

fn split_methods(methods: Vec<(String, RValue)>) -> (parts: (Vec<(String, RValue)>, Vec<RValue>))
    ensures
        RValue::views(parts.1@) == RValue::method_views(methods@).map_values(
            |method: (Seq<char>, RValueView)| method.1,
        ),
        RValue::method_views(parts.0@).len() == methods@.len(),
        forall|i: int|
            0 <= i < methods@.len() ==> (#[trigger] RValue::method_views(parts.0@)[i]).0
                == RValue::method_views(methods@)[i].0,
{
    let ghost views = RValue::method_views(methods@);
    let count: usize = methods.len();
    let mut rest = methods;
    let mut shell: Vec<(String, RValue)> = Vec::new();
    let mut values: Vec<RValue> = Vec::new();
    let mut index: usize = 0;
    while index < count
        invariant
            index <= count == views.len(),
            shell@.len() == index,
            values@.len() == index,
            rest@.len() == count - index,
            RValue::method_views(rest@) =~= views.skip(index as int),
            forall|i: int| 0 <= i < index ==> (#[trigger] RValue::views(values@)[i]) == views[i].1,
            forall|i: int|
                0 <= i < index ==> (#[trigger] RValue::method_views(shell@)[i]).0 == views[i].0,
        decreases count - index,
    {
        let ghost before = RValue::method_views(rest@);
        let (name, value) = rest.remove(0);
        proof {
            assert(before[0] == views[index as int]);
            assert(RValue::method_views(rest@) =~= before.skip(1));
        }
        shell.push((name, nil()));
        values.push(value);
        index += 1;
    }
    proof {
        assert(RValue::views(values@) =~= views.map_values(
            |method: (Seq<char>, RValueView)| method.1,
        ));
    }
    (shell, values)
}

fn refill_methods(methods: Vec<(String, RValue)>, values: Vec<RValue>) -> (refilled: Vec<
    (String, RValue),
>)
    requires
        values@.len() == methods@.len(),
    ensures
        RValue::method_views(refilled@) == Seq::new(
            methods@.len(),
            |i: int| (RValue::method_views(methods@)[i].0, RValue::views(values@)[i]),
        ),
{
    let ghost views = RValue::method_views(methods@);
    let ghost given = RValue::views(values@);
    let count: usize = methods.len();
    let mut methods = methods;
    let mut values = values;
    let mut refilled: Vec<(String, RValue)> = Vec::new();
    let mut index: usize = 0;
    while index < count
        invariant
            index <= count == views.len() == given.len(),
            methods@.len() == count - index,
            values@.len() == count - index,
            RValue::method_views(methods@) =~= views.skip(index as int),
            RValue::views(values@) =~= given.skip(index as int),
            refilled@.len() == index,
            forall|i: int|
                0 <= i < index ==> (#[trigger] RValue::method_views(refilled@)[i]) == (
                    views[i].0,
                    given[i],
                ),
        decreases count - index,
    {
        let ghost names = RValue::method_views(methods@);
        let ghost left = RValue::views(values@);
        let (name, _) = methods.remove(0);
        let value = values.remove(0);
        proof {
            assert(names[0] == views[index as int]);
            assert(left[0] == given[index as int]);
            assert(RValue::method_views(methods@) =~= names.skip(1));
            assert(RValue::views(values@) =~= left.skip(1));
        }
        refilled.push((name, value));
        index += 1;
    }
    proof {
        assert(RValue::method_views(refilled@) =~= Seq::new(
            count as nat,
            |i: int| (views[i].0, given[i]),
        ));
    }
    refilled
}

impl Statement {
    /// Takes a statement apart into a shell of its kind, the expressions that
    /// stand directly in it and its nested blocks.
    #[verifier::rlimit(50)]
    pub fn decompose(self) -> (parts: (Statement, Vec<RValue>, Vec<Block>))
        ensures
            RValue::views(parts.1@) == self@.roots(),
            Block::views(parts.2@) == self@.blocks(),
            same_form(parts.0@, self@),
            self@.takes(self@.roots().len() as int),
    {
        let ghost whole = self@;
        proof {
            nodes::statement_node(self);
            model::lemma_statement_parts(self@);
        }
        let parts = match self {
            Statement::Call(call) => {
                let roots = join_operands(*call.value, call.arguments);
                let shell = Call { value: Box::new(nil()), arguments: Vec::new() };
                (Statement::Call(shell), roots, no_blocks())
            },
            Statement::MethodCall(call) => {
                let roots = join_operands(*call.value, call.arguments);
                let shell = MethodCall {
                    value: Box::new(nil()),
                    method: call.method,
                    arguments: Vec::new(),
                };
                (Statement::MethodCall(shell), roots, no_blocks())
            },
            Statement::Assign(assign) => {
                let (shell, roots) = assign.into_roots();
                (Statement::Assign(shell), roots, no_blocks())
            },
            Statement::NumForInit(init) => {
                let (shell, roots) = init.0.into_roots();
                (Statement::NumForInit(NumForInit(shell)), roots, no_blocks())
            },
            Statement::GenericForInit(init) => {
                let (shell, roots) = init.0.into_roots();
                (Statement::GenericForInit(GenericForInit(shell)), roots, no_blocks())
            },
            Statement::If(branch) => {
                let mut blocks: Vec<Block> = Vec::new();
                blocks.push(branch.then_block);
                blocks.push(branch.else_block);
                proof {
                    assert(Block::views(blocks@) =~= whole.blocks());
                }
                let shell = If {
                    condition: nil(),
                    then_block: empty_block(),
                    else_block: empty_block(),
                };
                (Statement::If(shell), one(branch.condition), blocks)
            },
            Statement::While(each) => {
                let shell = While { condition: nil(), block: empty_block() };
                (Statement::While(shell), one(each.condition), one_block(each.block))
            },
            Statement::Repeat(each) => {
                let shell = Repeat { condition: nil(), block: empty_block() };
                (Statement::Repeat(shell), one(each.condition), one_block(each.block))
            },
            Statement::NumericFor(each) => {
                let mut roots: Vec<RValue> = Vec::new();
                roots.push(each.initial);
                roots.push(each.limit);
                roots.push(each.step);
                proof {
                    assert(RValue::views(roots@) =~= whole.roots());
                }
                let shell = NumericFor {
                    initial: nil(),
                    limit: nil(),
                    step: nil(),
                    counter: each.counter,
                    block: empty_block(),
                };
                (Statement::NumericFor(shell), roots, one_block(each.block))
            },
            Statement::GenericFor(each) => {
                let shell = GenericFor {
                    res_locals: each.res_locals,
                    right: Vec::new(),
                    block: empty_block(),
                };
                (Statement::GenericFor(shell), each.right, one_block(each.block))
            },
            Statement::Do(scope) => {
                (Statement::Do(Do { block: empty_block() }), no_values(), one_block(scope.block))
            },
            Statement::Return(returned) => {
                (Statement::Return(Return { values: Vec::new() }), returned.values, no_blocks())
            },
            Statement::SetList(list) => {
                let mut roots = list.values;
                let ghost values = RValue::views(roots@);
                let tail = match list.tail {
                    Some(tail) => {
                        roots.push(tail);
                        Some(nil())
                    },
                    None => None,
                };
                proof {
                    assert(RValue::views(roots@) =~= values + model::optional(
                        RValue::option_view(list.tail),
                    ));
                }
                let shell = SetList {
                    object_local: list.object_local,
                    index: list.index,
                    values: Vec::new(),
                    tail,
                };
                (Statement::SetList(shell), roots, no_blocks())
            },
            Statement::Class(class) => {
                let (methods, roots) = split_methods(class.methods);
                let shell = Class {
                    target: class.target,
                    source_name: class.source_name,
                    properties: class.properties,
                    methods,
                };
                proof {
                    assert forall|given: Seq<RValueView>| #[trigger]
                        shell@.with_values(given) == class@.with_values(given) by {
                        assert(shell@.with_values(given).methods =~= class@.with_values(
                            given,
                        ).methods);
                    }
                }
                (Statement::Class(shell), roots, no_blocks())
            },
            Statement::NumForNext(next) => {
                let shell = NumForNext {
                    counter: next.counter,
                    value: nil(),
                    limit: nil(),
                    step: nil(),
                };
                let mut roots = two(next.value, next.limit);
                roots.push(next.step);
                (Statement::NumForNext(shell), roots, no_blocks())
            },
            Statement::GenericForNext(next) => {
                let shell = GenericForNext {
                    res_locals: next.res_locals,
                    generator: nil(),
                    state: nil(),
                };
                (Statement::GenericForNext(shell), two(next.generator, next.state), no_blocks())
            },
            leaf => (leaf, no_values(), no_blocks()),
        };
        proof {
            nodes::statement_node(parts.0);
            nodes::statement_node(self);
            assert(self@ == whole);
        }
        parts
    }

    /// This statement with other expressions standing directly in it, and with
    /// other nested blocks.
    #[verifier::rlimit(50)]
    pub fn compose(self, roots: Vec<RValue>, blocks: Vec<Block>) -> (statement: Statement)
        requires
            self@.takes(roots@.len() as int),
            blocks@.len() == self@.blocks().len(),
        ensures
            statement@ == self@.with_roots(RValue::views(roots@)).with_blocks(
                Block::views(blocks@),
            ),
    {
        let mut roots = roots;
        let mut blocks = blocks;
        let ghost given = RValue::views(roots@);
        proof {
            nodes::statement_node(self);
        }
        let statement = match self {
            Statement::Call(_) => {
                let value = roots.remove(0);
                proof {
                    assert(RValue::views(roots@) =~= given.skip(1));
                }
                Statement::Call(Call { value: Box::new(value), arguments: roots })
            },
            Statement::MethodCall(call) => {
                let value = roots.remove(0);
                proof {
                    assert(RValue::views(roots@) =~= given.skip(1));
                }
                Statement::MethodCall(
                    MethodCall { value: Box::new(value), method: call.method, arguments: roots },
                )
            },
            Statement::Assign(assign) => Statement::Assign(assign.refill(roots)),
            Statement::NumForInit(init) => Statement::NumForInit(
                NumForInit(init.0.refill(roots)),
            ),
            Statement::GenericForInit(init) => Statement::GenericForInit(
                GenericForInit(init.0.refill(roots)),
            ),
            Statement::If(_) => {
                let condition = roots.remove(0);
                let then_block = blocks.remove(0);
                let else_block = blocks.remove(0);
                Statement::If(If { condition, then_block, else_block })
            },
            Statement::While(_) => {
                let condition = roots.remove(0);
                let block = blocks.remove(0);
                Statement::While(While { condition, block })
            },
            Statement::Repeat(_) => {
                let condition = roots.remove(0);
                let block = blocks.remove(0);
                Statement::Repeat(Repeat { condition, block })
            },
            Statement::NumericFor(each) => {
                let initial = roots.remove(0);
                let limit = roots.remove(0);
                let step = roots.remove(0);
                let block = blocks.remove(0);
                Statement::NumericFor(
                    NumericFor { initial, limit, step, counter: each.counter, block },
                )
            },
            Statement::GenericFor(each) => {
                let block = blocks.remove(0);
                Statement::GenericFor(
                    GenericFor { res_locals: each.res_locals, right: roots, block },
                )
            },
            Statement::Do(_) => {
                let block = blocks.remove(0);
                Statement::Do(Do { block })
            },
            Statement::Return(_) => Statement::Return(Return { values: roots }),
            Statement::SetList(list) => {
                let tail = match list.tail {
                    Some(_) => roots.pop(),
                    None => None,
                };
                proof {
                    assert(RValue::views(roots@) =~= given.take(
                        given.len() - model::optional(RValue::option_view(list.tail)).len(),
                    ));
                }
                Statement::SetList(
                    SetList {
                        object_local: list.object_local,
                        index: list.index,
                        values: roots,
                        tail,
                    },
                )
            },
            Statement::Class(class) => {
                let ghost before = class@;
                let methods = refill_methods(class.methods, roots);
                let refilled = Class {
                    target: class.target,
                    source_name: class.source_name,
                    properties: class.properties,
                    methods,
                };
                proof {
                    assert(refilled@.methods =~= before.with_values(given).methods);
                }
                Statement::Class(refilled)
            },
            Statement::NumForNext(next) => {
                let value = roots.remove(0);
                let limit = roots.remove(0);
                let step = roots.remove(0);
                Statement::NumForNext(NumForNext { counter: next.counter, value, limit, step })
            },
            Statement::GenericForNext(next) => {
                let generator = roots.remove(0);
                let state = roots.remove(0);
                Statement::GenericForNext(
                    GenericForNext { res_locals: next.res_locals, generator, state },
                )
            },
            leaf => leaf,
        };
        proof {
            nodes::statement_node(statement);
        }
        statement
    }

    /// The values that this statement computes for itself; the operands of
    /// assignment targets are not among them.
    #[verifier::rlimit(30)]
    pub fn rvalues(&self) -> (values: Vec<&RValue>)
        ensures
            RValue::borrowed(values@) == self@.rvalues(),
    {
        proof {
            nodes::statement_node(*self);
        }
        match self {
            Statement::Call(call) => borrow_operands(&call.value, &call.arguments),
            Statement::MethodCall(call) => borrow_operands(&call.value, &call.arguments),
            Statement::Assign(assign) => {
                proof {
                    nodes::assign_node(*assign);
                }
                borrow_all(&assign.right)
            },
            Statement::NumForInit(init) => {
                proof {
                    nodes::assign_node(init.0);
                }
                borrow_all(&init.0.right)
            },
            Statement::GenericForInit(init) => {
                proof {
                    nodes::assign_node(init.0);
                }
                borrow_all(&init.0.right)
            },
            Statement::If(branch) => borrow_one(&branch.condition),
            Statement::While(each) => borrow_one(&each.condition),
            Statement::Repeat(each) => borrow_one(&each.condition),
            Statement::NumericFor(each) => {
                let mut values: Vec<&RValue> = Vec::new();
                values.push(&each.initial);
                values.push(&each.limit);
                values.push(&each.step);
                proof {
                    assert(RValue::borrowed(values@) =~= self@.rvalues());
                }
                values
            },
            Statement::GenericFor(each) => borrow_all(&each.right),
            Statement::Return(returned) => borrow_all(&returned.values),
            Statement::SetList(list) => {
                let mut values = borrow_all(&list.values);
                match &list.tail {
                    Some(tail) => {
                        values.push(tail);
                    },
                    None => {},
                }
                proof {
                    assert(RValue::borrowed(values@) =~= self@.rvalues());
                }
                values
            },
            Statement::Class(class) => borrow_methods(&class.methods),
            Statement::NumForNext(next) => {
                let mut values = borrow_two(&next.value, &next.limit);
                values.push(&next.step);
                values
            },
            Statement::GenericForNext(next) => borrow_two(&next.generator, &next.state),
            _ => {
                let values: Vec<&RValue> = Vec::new();
                proof {
                    assert(RValue::borrowed(values@) =~= self@.rvalues());
                }
                values
            },
        }
    }

    /// All the expressions that stand directly in this statement: the operands
    /// of its targets, then its values.
    pub fn roots(&self) -> (roots: Vec<&RValue>)
        ensures
            RValue::borrowed(roots@) == self@.roots(),
    {
        proof {
            nodes::statement_node(*self);
        }
        match self {
            Statement::Assign(assign) => assign.roots(),
            Statement::NumForInit(init) => init.0.roots(),
            Statement::GenericForInit(init) => init.0.roots(),
            _ => self.rvalues(),
        }
    }

    /// The blocks nested in this statement.
    pub fn blocks(&self) -> (blocks: Vec<&Block>)
        ensures
            Block::borrowed(blocks@) == self@.blocks(),
    {
        proof {
            nodes::statement_node(*self);
        }
        let mut blocks: Vec<&Block> = Vec::new();
        match self {
            Statement::If(branch) => {
                blocks.push(&branch.then_block);
                blocks.push(&branch.else_block);
            },
            Statement::While(each) => blocks.push(&each.block),
            Statement::Repeat(each) => blocks.push(&each.block),
            Statement::NumericFor(each) => blocks.push(&each.block),
            Statement::GenericFor(each) => blocks.push(&each.block),
            Statement::Do(scope) => blocks.push(&scope.block),
            _ => {},
        }
        proof {
            assert(Block::borrowed(blocks@) =~= self@.blocks());
        }
        blocks
    }
}

fn borrow_one<'a>(value: &'a RValue) -> (values: Vec<&'a RValue>)
    ensures
        RValue::borrowed(values@) == seq![value@],
{
    let mut values: Vec<&'a RValue> = Vec::new();
    values.push(value);
    proof {
        assert(RValue::borrowed(values@) =~= seq![value@]);
    }
    values
}

fn borrow_two<'a>(first: &'a RValue, second: &'a RValue) -> (values: Vec<&'a RValue>)
    ensures
        RValue::borrowed(values@) == seq![first@, second@],
{
    let mut values: Vec<&'a RValue> = Vec::new();
    values.push(first);
    values.push(second);
    proof {
        assert(RValue::borrowed(values@) =~= seq![first@, second@]);
    }
    values
}

impl Assign {
    /// The operands of the targets, then the assigned values.
    pub fn roots(&self) -> (roots: Vec<&RValue>)
        ensures
            RValue::borrowed(roots@) == self@.roots(),
    {
        let mut roots: Vec<&RValue> = Vec::new();
        let ghost targets = LValue::views(self.left@);
        let mut index: usize = 0;
        while index < self.left.len()
            invariant
                index <= self.left.len(),
                targets == LValue::views(self.left@),
                RValue::borrowed(roots@) + LValueView::children_from(targets, index as int)
                    =~= LValueView::children_from(targets, 0),
            decreases self.left.len() - index,
        {
            let ghost held = RValue::borrowed(roots@);
            proof {
                nodes::lvalue_node(self.left@[index as int]);
            }
            match &self.left[index] {
                LValue::Index(place) => {
                    roots.push(&place.left);
                    roots.push(&place.right);
                },
                _ => {},
            }
            proof {
                assert(RValue::borrowed(roots@) =~= held + targets[index as int].children());
            }
            index += 1;
        }
        let mut right = borrow_all(&self.right);
        let ghost operands = RValue::borrowed(roots@);
        let ghost values = RValue::borrowed(right@);
        roots.append(&mut right);
        proof {
            nodes::assign_node(*self);
            assert(RValue::borrowed(roots@) =~= operands + values);
        }
        roots
    }
}

} // verus!
