//! What trees mean: the values that expressions give, and what running
//! statements does to the world. Calls, operators and everything else that a
//! tree leaves open are left to a machine.

use vstd::prelude::*;

use crate::ast::literal::LiteralView;
use crate::ast::local::RcLocal;
use crate::ast::nodes::{
    BinaryOperation, LValueView, RValueView, SelectView, StatementView, UnaryOperation, Upvalue,
};
use crate::ast::{binary, model, shape_laws};

verus! {

/// A value of a running program.
pub enum Value {
    Nil,
    Boolean(bool),
    String(Seq<u8>),
    Object(int),
}

impl Value {
    /// Whether a condition with this value holds.
    pub open spec fn is_truthy(self) -> bool {
        self != Value::Nil && self != Value::Boolean(false)
    }
}

/// The first of the values that an expression gives.
pub open spec fn first(results: Seq<Value>) -> Value {
    if results.len() > 0 {
        results[0]
    } else {
        Value::Nil
    }
}

/// The state of a running program: its locals, and all the rest.
#[verifier::ext_equal]
pub struct World {
    pub locals: Map<u64, Value>,
    pub rest: int,
}

/// What a program leaves open. Nothing but the locals that are shared can be
/// reached from outside of the code at hand.
pub struct Machine {
    /// The locals that others can see.
    pub shared: Set<u64>,
    /// The value of a shared local.
    pub load: spec_fn(u64, int) -> Value,
    /// Giving a shared local a value.
    pub store: spec_fn(u64, Value, int) -> int,
    /// What tells a constant from others.
    pub constant: spec_fn(LiteralView) -> int,
    /// The values that the function was called with beyond its parameters.
    pub varargs: Seq<Value>,
    /// What tells the body of a function from others.
    pub code: spec_fn(Seq<StatementView>) -> int,
    /// A new closure.
    pub closure: spec_fn(RValueView, int, Seq<Value>, int) -> int,
    /// A new table.
    pub table: spec_fn(RValueView, Seq<Value>, int) -> int,
    /// What an operation on values gives, and what it does.
    pub apply: spec_fn(RValueView, Seq<Value>, int) -> (Seq<Value>, int),
    /// What a statement does beyond the locals that it writes.
    pub perform: spec_fn(StatementView, Seq<Value>, int) -> int,
    /// What a statement that is no assignment writes to a local.
    pub outcome: spec_fn(StatementView, Seq<Value>, int, int) -> Value,
    /// Whether a counting loop goes on.
    pub more: spec_fn(StatementView, Seq<Value>, int) -> bool,
}

impl Machine {
    /// The value of a local.
    pub open spec fn loaded(self, local: RcLocal, world: World) -> Value {
        if self.shared.contains(local.id) {
            (self.load)(local.id, world.rest)
        } else if world.locals.dom().contains(local.id) {
            world.locals[local.id]
        } else {
            Value::Nil
        }
    }

    /// A world in which a local has a value.
    pub open spec fn stored(self, local: RcLocal, value: Value, world: World) -> World {
        if self.shared.contains(local.id) {
            World { rest: (self.store)(local.id, value, world.rest), ..world }
        } else {
            World { locals: world.locals.insert(local.id, value), ..world }
        }
    }

    /// The value of a literal.
    pub open spec fn literal(self, literal: LiteralView) -> Value {
        match literal {
            LiteralView::Nil => Value::Nil,
            LiteralView::Boolean(value) => Value::Boolean(value),
            LiteralView::String(bytes) => Value::String(bytes),
            _ => Value::Object((self.constant)(literal)),
        }
    }

    /// The values of the locals that a closure captures.
    pub open spec fn captures(self, upvalues: Seq<Upvalue>, world: World) -> Seq<Value> {
        Seq::new(upvalues.len(), |i: int| self.loaded(upvalues[i].captured(), world))
    }

    /// What a joining of two values gives: strings are joined, and for others
    /// an operation is applied.
    pub open spec fn joined(
        self,
        head: RValueView,
        left: Value,
        right: Value,
        world: World,
    ) -> (Seq<Value>, World) {
        match (head, left, right) {
            (
                RValueView::Binary(_, _, BinaryOperation::Concat),
                Value::String(a),
                Value::String(b),
            ) => (seq![Value::String(a + b)], world),
            _ => {
                let (results, rest) = (self.apply)(head, seq![left, right], world.rest);
                (seq![first(results)], World { rest, ..world })
            },
        }
    }
}

/// Constants to stand in the place of operands.
pub open spec fn blanks(count: nat) -> Seq<RValueView> {
    Seq::new(count, |i: int| RValueView::Literal(LiteralView::Nil))
}

impl RValueView {
    /// What an expression is apart from its operands.
    pub open spec fn head(self) -> RValueView {
        if self is Closure {
            self.with_body(Seq::empty())
        } else {
            self.with_children(blanks(self.children().len()))
        }
    }

    /// Whether the last operand counts with all its values.
    pub open spec fn expands(self) -> bool {
        match self {
            RValueView::Call(_) | RValueView::MethodCall(_) => true,
            RValueView::Select(_) => true,
            RValueView::Table(fields) => fields.len() > 0 && fields.last().0 is None,
            _ => false,
        }
    }

    /// Whether an expression can give other than one value.
    pub open spec fn gives_many(self) -> bool {
        self is Call || self is MethodCall || self is VarArg
    }

    /// The values that an expression gives, and the world after.
    pub open spec fn evaluated(self, m: Machine, world: World) -> (Seq<Value>, World)
        decreases self.size(), 0int,
    {
        proof {
            model::lemma_children_smaller(self);
            binary::lemma_operand_sizes(self);
            reveal(RValueView::size);
        }
        match self {
            RValueView::Local(local) => (seq![m.loaded(local, world)], world),
            RValueView::Literal(literal) => (seq![m.literal(literal)], world),
            RValueView::VarArg => (m.varargs, world),
            RValueView::Select(SelectView::VarArg) => (seq![first(m.varargs)], world),
            RValueView::Closure(closure) => {
                let made = (m.closure)(
                    self.head(),
                    (m.code)(self.body()),
                    m.captures(closure.upvalues, world),
                    world.rest,
                );
                (seq![Value::Object(made)], world)
            },
            RValueView::Table(_) => {
                let (values, after) = Self::operands_from(
                    self.children(),
                    0,
                    self.expands(),
                    m,
                    world,
                );
                (seq![Value::Object((m.table)(self.head(), values, after.rest))], after)
            },
            RValueView::Unary(operand, UnaryOperation::Not) => {
                let (results, after) = operand.evaluated(m, world);
                (seq![Value::Boolean(!first(results).is_truthy())], after)
            },
            RValueView::Binary(left, right, operation) => {
                let (results, middle) = left.evaluated(m, world);
                let chosen = first(results);
                if operation == BinaryOperation::And && !chosen.is_truthy() || operation
                    == BinaryOperation::Or && chosen.is_truthy() {
                    (seq![chosen], middle)
                } else {
                    let (others, after) = right.evaluated(m, middle);
                    if operation == BinaryOperation::And || operation == BinaryOperation::Or {
                        (seq![first(others)], after)
                    } else {
                        m.joined(self.head(), chosen, first(others), after)
                    }
                }
            },
            RValueView::Conditional(condition, then_value, else_value) => {
                let (results, middle) = condition.evaluated(m, world);
                let (chosen, after) = if first(results).is_truthy() {
                    then_value.evaluated(m, middle)
                } else {
                    else_value.evaluated(m, middle)
                };
                (seq![first(chosen)], after)
            },
            _ => {
                let (values, after) = Self::operands_from(
                    self.children(),
                    0,
                    self.expands(),
                    m,
                    world,
                );
                let (results, rest) = (m.apply)(self.head(), values, after.rest);
                (
                    if self.gives_many() {
                        results
                    } else {
                        seq![first(results)]
                    },
                    World { rest, ..after },
                )
            },
        }
    }

    /// The values that the operands from position `from` on give, one each,
    /// but for the last all of them where it expands.
    pub open spec fn operands_from(
        values: Seq<RValueView>,
        from: int,
        expands: bool,
        m: Machine,
        world: World,
    ) -> (Seq<Value>, World)
        decreases Self::sizes_from(values, from), 1int,
    {
        proof {
            model::lemma_sizes_step(values, from);
        }
        if 0 <= from < values.len() {
            let (results, middle) = values[from].evaluated(m, world);
            let (rest, after) = Self::operands_from(values, from + 1, expands, m, middle);
            (
                (if expands && from + 1 == values.len() {
                    results
                } else {
                    seq![first(results)]
                }) + rest,
                after,
            )
        } else {
            (Seq::empty(), world)
        }
    }
}

/// How a run of statements ends.
pub enum Exit {
    Normal,
    Break,
    Continue,
    Return(Seq<Value>),
    Goto(Seq<char>),
    /// A loop had no rounds left.
    Stuck,
}

/// The locals among targets from position `from` on given their values, the
/// targets before being given the values before `at`.
pub open spec fn targets_stored(
    targets: Seq<LValueView>,
    from: int,
    values: Seq<Value>,
    at: int,
    m: Machine,
    world: World,
) -> World
    decreases targets.len() - from,
{
    if 0 <= from < targets.len() {
        let value = if 0 <= at < values.len() {
            values[at]
        } else {
            Value::Nil
        };
        let next = match targets[from] {
            LValueView::Local(local) => m.stored(local, value, world),
            _ => world,
        };
        targets_stored(targets, from + 1, values, at + 1, m, next)
    } else {
        world
    }
}

impl StatementView {
    /// What a statement is apart from its expressions and blocks.
    pub open spec fn frame(self) -> StatementView {
        self.with_roots(blanks(self.roots().len())).with_blocks(
            Seq::new(self.blocks().len(), |i: int| Seq::empty()),
        )
    }

    /// Whether the last expression counts with all its values.
    pub open spec fn expands(self) -> bool {
        match self {
            StatementView::Assign(assign) => assign.right.len() > 0,
            StatementView::Call(_) | StatementView::MethodCall(_) | StatementView::Return(_)
            | StatementView::GenericFor { .. } => true,
            StatementView::SetList { tail, .. } => tail is Some,
            _ => false,
        }
    }

    /// The values of a statement's expressions, and the world after.
    pub open spec fn inputs(self, m: Machine, world: World) -> (Seq<Value>, World) {
        let (values, after) = RValueView::operands_from(
            self.roots(),
            0,
            self.expands(),
            m,
            world,
        );
        match self {
            StatementView::SetList { object_local, .. } => (
                seq![m.loaded(object_local, world)] + values,
                after,
            ),
            _ => (values, after),
        }
    }

    /// The locals from position `from` on given what a statement writes to
    /// them.
    pub open spec fn outcomes_stored(
        self,
        locals: Seq<RcLocal>,
        from: int,
        values: Seq<Value>,
        m: Machine,
        world: World,
    ) -> World
        decreases locals.len() - from,
    {
        if 0 <= from < locals.len() {
            let value = (m.outcome)(self.frame(), values, from, world.rest);
            self.outcomes_stored(
                locals,
                from + 1,
                values,
                m,
                m.stored(locals[from], value, world),
            )
        } else {
            world
        }
    }

    /// The world after a statement that holds no blocks.
    pub open spec fn stepped(self, m: Machine, world: World) -> World {
        let (values, after) = self.inputs(m, world);
        match self {
            StatementView::Assign(assign) => {
                let done = if Self::target_effects_from(assign.left, 0) {
                    World { rest: (m.perform)(self.frame(), values, after.rest), ..after }
                } else {
                    after
                };
                targets_stored(
                    assign.left,
                    0,
                    values,
                    LValueView::arity_from(assign.left, 0) as int,
                    m,
                    done,
                )
            },
            StatementView::Empty | StatementView::Comment(_) => world,
            _ => self.outcomes_stored(
                self.writes(),
                0,
                values,
                m,
                World { rest: (m.perform)(self.frame(), values, after.rest), ..after },
            ),
        }
    }

    /// The world after running a statement, and how that ends. A loop runs
    /// through `fuel` rounds at most.
    pub open spec fn run(self, m: Machine, world: World, fuel: nat) -> (World, Exit)
        decreases fuel, self.size(), 2int,
    {
        proof {
            model::lemma_nested_smaller(self);
        }
        match self {
            StatementView::Break => (world, Exit::Break),
            StatementView::Continue => (world, Exit::Continue),
            StatementView::Goto(label) => (world, Exit::Goto(label)),
            StatementView::Return(_) => {
                let (values, after) = self.inputs(m, world);
                (after, Exit::Return(values))
            },
            StatementView::Do(block) => {
                proof {
                    assert(self.blocks()[0] == block);
                }
                Self::run_from(block, 0, m, world, fuel)
            },
            StatementView::If { condition, then_block, else_block } => {
                proof {
                    assert(self.blocks()[0] == then_block);
                    assert(self.blocks()[1] == else_block);
                }
                let (results, after) = condition.evaluated(m, world);
                if first(results).is_truthy() {
                    Self::run_from(then_block, 0, m, after, fuel)
                } else {
                    Self::run_from(else_block, 0, m, after, fuel)
                }
            },
            StatementView::While { .. } | StatementView::Repeat { .. } => self.looped(
                Seq::empty(),
                m,
                world,
                fuel,
            ),
            StatementView::NumericFor { .. } | StatementView::GenericFor { .. } => {
                let (values, after) = self.inputs(m, world);
                self.looped(
                    values,
                    m,
                    World { rest: (m.perform)(self.frame(), values, after.rest), ..after },
                    fuel,
                )
            },
            _ => (self.stepped(m, world), Exit::Normal),
        }
    }

    /// The world after the rounds of a loop, and how they end.
    pub open spec fn looped(self, values: Seq<Value>, m: Machine, world: World, fuel: nat) -> (
        World,
        Exit,
    )
        decreases fuel, self.size(), 1int,
    {
        if fuel == 0 {
            (world, Exit::Stuck)
        } else {
            let less = (fuel - 1) as nat;
            match self {
                StatementView::While { condition, block } => {
                    let (results, start) = condition.evaluated(m, world);
                    if first(results).is_truthy() {
                        let (after, exit) = Self::run_from(block, 0, m, start, less);
                        match exit {
                            Exit::Break => (after, Exit::Normal),
                            Exit::Normal | Exit::Continue => self.looped(values, m, after, less),
                            _ => (after, exit),
                        }
                    } else {
                        (start, Exit::Normal)
                    }
                },
                StatementView::Repeat { condition, block } => {
                    let (after, exit) = Self::run_from(block, 0, m, world, less);
                    match exit {
                        Exit::Break => (after, Exit::Normal),
                        Exit::Normal | Exit::Continue => {
                            let (results, last) = condition.evaluated(m, after);
                            if first(results).is_truthy() {
                                (last, Exit::Normal)
                            } else {
                                self.looped(values, m, last, less)
                            }
                        },
                        _ => (after, exit),
                    }
                },
                StatementView::NumericFor { block, .. } | StatementView::GenericFor {
                    block,
                    ..
                } => if (m.more)(self.frame(), values, world.rest) {
                    let start = self.outcomes_stored(
                        self.writes(),
                        0,
                        values,
                        m,
                        World { rest: (m.perform)(self.frame(), values, world.rest), ..world },
                    );
                    let (after, exit) = Self::run_from(block, 0, m, start, less);
                    match exit {
                        Exit::Break => (after, Exit::Normal),
                        Exit::Normal | Exit::Continue => self.looped(values, m, after, less),
                        _ => (after, exit),
                    }
                } else {
                    (world, Exit::Normal)
                },
                _ => (world, Exit::Normal),
            }
        }
    }

    /// The world after running the statements from position `from` on, and how
    /// that ends.
    pub open spec fn run_from(
        block: Seq<StatementView>,
        from: int,
        m: Machine,
        world: World,
        fuel: nat,
    ) -> (World, Exit)
        decreases fuel, Self::sizes_from(block, from), 3int,
    {
        proof {
            model::lemma_statement_sizes_step(block, from);
        }
        if 0 <= from < block.len() {
            let (after, exit) = block[from].run(m, world, fuel);
            match exit {
                Exit::Normal => Self::run_from(block, from + 1, m, after, fuel),
                _ => (after, exit),
            }
        } else {
            (world, Exit::Normal)
        }
    }
}

/// What an expression is does not change with its operands.
pub proof fn lemma_same_head(value: RValueView, operands: Seq<RValueView>)
    requires
        operands.len() == value.children().len(),
    ensures
        value.with_children(operands).head() == value.head(),
        value.with_children(operands).children() == operands,
        value.with_children(operands).body() == value.body(),
        value.with_children(operands).expands() == value.expands(),
        value.with_children(operands).gives_many() == value.gives_many(),
{
    shape_laws::same_operands(value);
    shape_laws::given_operands(value, operands);
    shape_laws::regiven_operands(value, operands, blanks(operands.len()));
    if let RValueView::Table(fields) = value {
        shape_laws::lemma_keys_kept(value, operands);
    }
}

} // verus!
