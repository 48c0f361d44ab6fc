//! What a statement does: the locals, upvalues and tables it touches, and the
//! result groups it asks for.

use vstd::prelude::*;

use crate::ast::local::RcLocal;
use crate::ast::nodes::{
    BinaryOperation, LValue, LValueView, RValue, RValueView, Select, SelectView, Statement,
    StatementView, UnaryOperation,
};
use crate::ast::{model, nodes, LocalRw};
use crate::cfg::function::Function;
use crate::cfg::graph::NodeId;
use crate::cfg::provenance::{
    BindingIdentity, BindingSet, BindingView, LocalProvenanceView, Provenance,
};

verus! {

broadcast use nodes::group_views;

/// Where a statement stands.
#[derive(Debug, Clone, Copy, PartialEq, Eq, PartialOrd, Ord, Hash, Structural)]
pub struct StatementLocation {
    pub block: NodeId,
    pub statement: usize,
}

/// What produces a group of results.
#[derive(Debug, Clone, Copy, PartialEq, Eq, PartialOrd, Ord, Hash, Structural)]
pub enum ResultProducer {
    Call,
    MethodCall,
    VarArg,
    GeneratorCall,
}

/// How many results are asked for.
#[derive(Debug, Clone, Copy, PartialEq, Eq, PartialOrd, Ord, Hash, Structural)]
pub enum ResultShape {
    Exact(usize),
    Open,
}

/// A group of results that a statement asks for.
#[derive(Debug, Clone, Copy, PartialEq, Eq, PartialOrd, Ord, Hash, Structural)]
pub struct ResultGroupFact {
    pub location: StatementLocation,
    pub ordinal: usize,
    pub producer: ResultProducer,
    pub demand: ResultShape,
}

/// What a statement does.
#[derive(Debug)]
pub struct EffectSummary {
    pub calls: bool,
    pub metamethod_capable: bool,
    pub local_reads: BindingSet,
    pub local_writes: BindingSet,
    pub upvalue_reads: BindingSet,
    pub upvalue_writes: BindingSet,
    pub table_root_reads: BindingSet,
    pub table_root_writes: BindingSet,
    pub table_root_escapes: BindingSet,
    pub allocation: bool,
    pub closure_capture: bool,
    pub result_groups: Vec<ResultGroupFact>,
}

/// The model of an `EffectSummary`.
#[verifier::ext_equal]
pub struct EffectView {
    pub calls: bool,
    pub metamethod_capable: bool,
    pub local_reads: Set<BindingView>,
    pub local_writes: Set<BindingView>,
    pub upvalue_reads: Set<BindingView>,
    pub upvalue_writes: Set<BindingView>,
    pub table_root_reads: Set<BindingView>,
    pub table_root_writes: Set<BindingView>,
    pub table_root_escapes: Set<BindingView>,
    pub allocation: bool,
    pub closure_capture: bool,
    pub result_groups: Seq<ResultGroupFact>,
}

/// What the locals of a function stand for.
pub type Known = Map<u64, LocalProvenanceView>;

impl RValueView {
    /// The local at the root of a chain of indices.
    pub open spec fn root_local(self) -> Option<RcLocal>
        decreases self,
    {
        match self {
            RValueView::Local(local) => Some(local),
            RValueView::Index(index) => index.left.root_local(),
            _ => None,
        }
    }
}

/// What a local stands for.
pub open spec fn bindings_of(known: Known, local: RcLocal) -> Set<BindingView> {
    if known.dom().contains(local.id) {
        known[local.id].bindings
    } else {
        Set::empty()
    }
}

/// What the root of an expression stands for.
pub open spec fn root_bindings(known: Known, value: RValueView) -> Set<BindingView> {
    match value.root_local() {
        Some(local) => bindings_of(known, local),
        None => Set::empty(),
    }
}

/// What the locals from position `from` on stand for, of the upvalues or of
/// all else.
pub open spec fn sorted_bindings_from(
    known: Known,
    locals: Seq<RcLocal>,
    from: int,
    upvalues: bool,
) -> Set<BindingView>
    decreases locals.len() - from,
{
    if 0 <= from < locals.len() {
        bindings_of(known, locals[from]).filter(
            |binding: BindingView| (binding is Upvalue) == upvalues,
        ).union(sorted_bindings_from(known, locals, from + 1, upvalues))
    } else {
        Set::empty()
    }
}

/// How many results the argument at `index` of `count` is asked for: all of
/// the last one's, one of any other.
pub open spec fn argument_demand(index: int, count: int) -> ResultShape {
    if index + 1 == count {
        ResultShape::Open
    } else {
        ResultShape::Exact(1)
    }
}

/// How many results the value at `index` of an assignment is asked for: one,
/// but of the last as many as there are targets left.
pub open spec fn assigned_demand(index: int, count: int, targets: int) -> ResultShape {
    if index + 1 == count {
        ResultShape::Exact(
            if targets > index {
                (targets - index) as usize
            } else {
                0
            },
        )
    } else {
        ResultShape::Exact(1)
    }
}

impl EffectView {
    /// Nothing done yet.
    pub open spec fn nothing() -> EffectView {
        EffectView {
            calls: false,
            metamethod_capable: false,
            local_reads: Set::empty(),
            local_writes: Set::empty(),
            upvalue_reads: Set::empty(),
            upvalue_writes: Set::empty(),
            table_root_reads: Set::empty(),
            table_root_writes: Set::empty(),
            table_root_escapes: Set::empty(),
            allocation: false,
            closure_capture: false,
            result_groups: Seq::empty(),
        }
    }

    /// One more group of results asked for.
    pub open spec fn asking(
        self,
        location: StatementLocation,
        producer: ResultProducer,
        demand: ResultShape,
    ) -> EffectView {
        EffectView {
            result_groups: self.result_groups.push(
                ResultGroupFact {
                    location,
                    ordinal: self.result_groups.len() as usize,
                    producer,
                    demand,
                },
            ),
            ..self
        }
    }

    /// With a call of `callee`.
    pub open spec fn with_call(
        self,
        known: Known,
        location: StatementLocation,
        callee: RValueView,
        arguments: Seq<RValueView>,
    ) -> EffectView
        decreases callee.size() + RValueView::sizes_from(arguments, 0), 2int,
    {
        let called = EffectView { calls: true, ..self }.with_value(
            known,
            location,
            callee,
            ResultShape::Exact(1),
        );
        called.with_arguments_from(known, location, arguments, 0)
    }

    /// With a call of a method of `receiver`.
    pub open spec fn with_method_call(
        self,
        known: Known,
        location: StatementLocation,
        receiver: RValueView,
        arguments: Seq<RValueView>,
    ) -> EffectView
        decreases receiver.size() + RValueView::sizes_from(arguments, 0), 2int,
    {
        let called = EffectView {
            calls: true,
            metamethod_capable: true,
            table_root_reads: self.table_root_reads.union(root_bindings(known, receiver)),
            ..self
        }.with_value(known, location, receiver, ResultShape::Exact(1));
        called.with_arguments_from(known, location, arguments, 0)
    }

    /// With the arguments of a call from position `from` on, whose roots
    /// escape.
    pub open spec fn with_arguments_from(
        self,
        known: Known,
        location: StatementLocation,
        arguments: Seq<RValueView>,
        from: int,
    ) -> EffectView
        decreases RValueView::sizes_from(arguments, from), 1int,
    {
        proof {
            model::lemma_sizes_step(arguments, from);
        }
        if 0 <= from < arguments.len() {
            let nested = self.with_value(
                known,
                location,
                arguments[from],
                argument_demand(from, arguments.len() as int),
            );
            EffectView {
                table_root_escapes: nested.table_root_escapes.union(
                    root_bindings(known, arguments[from]),
                ),
                ..nested
            }.with_arguments_from(known, location, arguments, from + 1)
        } else {
            self
        }
    }

    /// With the fields of a table constructor from position `from` on.
    pub open spec fn with_fields_from(
        self,
        known: Known,
        location: StatementLocation,
        fields: Seq<(Option<RValueView>, RValueView)>,
        from: int,
    ) -> EffectView
        decreases RValueView::field_sizes_from(fields, from), 1int,
    {
        proof {
            lemma_field_step(fields, from);
        }
        if 0 <= from < fields.len() {
            let keyed = match fields[from].0 {
                Some(key) => self.with_value(known, location, key, ResultShape::Exact(1)),
                None => self,
            };
            let demand = if fields[from].0 is None && from + 1 == fields.len() {
                ResultShape::Open
            } else {
                ResultShape::Exact(1)
            };
            keyed.with_value(known, location, fields[from].1, demand).with_fields_from(
                known,
                location,
                fields,
                from + 1,
            )
        } else {
            self
        }
    }

    /// With the operands from position `from` on, of each of which one result
    /// is asked for.
    pub open spec fn with_values_from(
        self,
        known: Known,
        location: StatementLocation,
        values: Seq<RValueView>,
        from: int,
    ) -> EffectView
        decreases RValueView::sizes_from(values, from), 1int,
    {
        proof {
            model::lemma_sizes_step(values, from);
        }
        if 0 <= from < values.len() {
            self.with_value(known, location, values[from], ResultShape::Exact(1)).with_values_from(
                known,
                location,
                values,
                from + 1,
            )
        } else {
            self
        }
    }

    /// With the evaluation of an expression, of which `demand` results are
    /// asked for.
    pub open spec fn with_value(
        self,
        known: Known,
        location: StatementLocation,
        value: RValueView,
        demand: ResultShape,
    ) -> EffectView
        decreases value.size(), 0int,
    {
        proof {
            lemma_value_step(value);
        }
        match value {
            RValueView::Call(call) => self.asking(
                location,
                ResultProducer::Call,
                demand,
            ).with_call(known, location, *call.value, call.arguments),
            RValueView::MethodCall(call) => self.asking(
                location,
                ResultProducer::MethodCall,
                demand,
            ).with_method_call(known, location, *call.value, call.arguments),
            RValueView::VarArg => self.asking(location, ResultProducer::VarArg, demand),
            RValueView::Select(SelectView::Call(call)) => self.asking(
                location,
                ResultProducer::Call,
                ResultShape::Exact(1),
            ).with_call(known, location, *call.value, call.arguments),
            RValueView::Select(SelectView::MethodCall(call)) => self.asking(
                location,
                ResultProducer::MethodCall,
                ResultShape::Exact(1),
            ).with_method_call(known, location, *call.value, call.arguments),
            RValueView::Select(SelectView::VarArg) => self.asking(
                location,
                ResultProducer::VarArg,
                ResultShape::Exact(1),
            ),
            RValueView::Table(fields) => EffectView {
                allocation: true,
                ..self
            }.with_fields_from(known, location, fields, 0),
            RValueView::Closure(closure) => EffectView {
                allocation: true,
                closure_capture: self.closure_capture || closure.upvalues.len() > 0,
                ..self
            },
            RValueView::Index(index) => EffectView {
                metamethod_capable: true,
                table_root_reads: self.table_root_reads.union(root_bindings(known, *index.left)),
                ..self
            }.with_values_from(known, location, value.children(), 0),
            RValueView::Binary(_, _, operation) => EffectView {
                metamethod_capable: self.metamethod_capable || !operation.is_logical(),
                ..self
            }.with_values_from(known, location, value.children(), 0),
            RValueView::Unary(_, operation) => EffectView {
                metamethod_capable: self.metamethod_capable || operation != UnaryOperation::Not,
                ..self
            }.with_values_from(known, location, value.children(), 0),
            RValueView::Conditional(_, _, _) => self.with_values_from(
                known,
                location,
                value.children(),
                0,
            ),
            RValueView::Local(_) | RValueView::Global(_) | RValueView::Literal(_) => self,
        }
    }
}

pub proof fn lemma_field_step(fields: Seq<(Option<RValueView>, RValueView)>, from: int)
    ensures
        0 <= from < fields.len() ==> {
            &&& fields[from].0 matches Some(key) ==> key.size()
                <= RValueView::field_sizes_from(fields, from)
            &&& fields[from].1.size() <= RValueView::field_sizes_from(fields, from)
            &&& RValueView::field_sizes_from(fields, from + 1) < RValueView::field_sizes_from(
                fields,
                from,
            )
        },
{
    reveal(RValueView::size);
}

pub proof fn lemma_value_step(value: RValueView)
    ensures
        RValueView::sizes_from(value.children(), 0) < value.size(),
        value matches RValueView::Table(fields) ==> RValueView::field_sizes_from(fields, 0)
            < value.size(),
        value matches RValueView::Call(call) ==> call.value.size() + RValueView::sizes_from(
            call.arguments,
            0,
        ) < value.size(),
        value matches RValueView::MethodCall(call) ==> call.value.size() + RValueView::sizes_from(
            call.arguments,
            0,
        ) < value.size(),
        value matches RValueView::Select(SelectView::Call(call)) ==> call.value.size()
            + RValueView::sizes_from(call.arguments, 0) < value.size(),
        value matches RValueView::Select(SelectView::MethodCall(call)) ==> call.value.size()
            + RValueView::sizes_from(call.arguments, 0) < value.size(),
{
    model::lemma_children_smaller(value);
    reveal(RValueView::size);
}

impl EffectView {
    /// With the values of an assignment from position `from` on.
    pub open spec fn with_assigned_from(
        self,
        known: Known,
        location: StatementLocation,
        values: Seq<RValueView>,
        targets: int,
        from: int,
    ) -> EffectView
        decreases values.len() - from,
    {
        if 0 <= from < values.len() {
            self.with_value(
                known,
                location,
                values[from],
                assigned_demand(from, values.len() as int, targets),
            ).with_assigned_from(known, location, values, targets, from + 1)
        } else {
            self
        }
    }

    /// With the stores to the targets from position `from` on.
    pub open spec fn with_targets_from(
        self,
        known: Known,
        targets: Seq<LValueView>,
        from: int,
    ) -> EffectView
        decreases targets.len() - from,
    {
        if 0 <= from < targets.len() {
            (match targets[from] {
                LValueView::Index(index) => EffectView {
                    metamethod_capable: true,
                    table_root_writes: self.table_root_writes.union(
                        root_bindings(known, *index.left),
                    ),
                    ..self
                },
                _ => self,
            }).with_targets_from(known, targets, from + 1)
        } else {
            self
        }
    }

    /// With the values that a `return` gives back from position `from` on,
    /// whose roots escape.
    pub open spec fn with_returned_from(
        self,
        known: Known,
        location: StatementLocation,
        values: Seq<RValueView>,
        from: int,
    ) -> EffectView
        decreases values.len() - from,
    {
        if 0 <= from < values.len() {
            let nested = self.with_value(
                known,
                location,
                values[from],
                argument_demand(from, values.len() as int),
            );
            EffectView {
                table_root_escapes: nested.table_root_escapes.union(
                    root_bindings(known, values[from]),
                ),
                ..nested
            }.with_returned_from(known, location, values, from + 1)
        } else {
            self
        }
    }

    /// With the reads and writes of locals that a statement makes.
    pub open spec fn touching(known: Known, statement: StatementView) -> EffectView {
        EffectView {
            local_reads: sorted_bindings_from(known, statement.reads(), 0, false),
            upvalue_reads: sorted_bindings_from(known, statement.reads(), 0, true),
            local_writes: sorted_bindings_from(known, statement.writes(), 0, false),
            upvalue_writes: sorted_bindings_from(known, statement.writes(), 0, true),
            ..Self::nothing()
        }
    }

    /// What a statement does.
    pub open spec fn of_statement(
        known: Known,
        location: StatementLocation,
        statement: StatementView,
    ) -> EffectView {
        let touched = Self::touching(known, statement);
        match statement {
            StatementView::Call(call) => touched.asking(
                location,
                ResultProducer::Call,
                ResultShape::Exact(0),
            ).with_call(known, location, *call.value, call.arguments),
            StatementView::MethodCall(call) => touched.asking(
                location,
                ResultProducer::MethodCall,
                ResultShape::Exact(0),
            ).with_method_call(known, location, *call.value, call.arguments),
            StatementView::Assign(assign) | StatementView::GenericForInit(assign) =>
                touched.with_targets_from(known, assign.left, 0).with_assigned_from(
                known,
                location,
                assign.right,
                assign.left.len() as int,
                0,
            ),
            StatementView::Return(values) => touched.with_returned_from(
                known,
                location,
                values,
                0,
            ),
            StatementView::SetList { object_local, values, tail, .. } => {
                let stored = EffectView {
                    table_root_writes: touched.table_root_writes.union(
                        bindings_of(known, object_local),
                    ),
                    ..touched
                }.with_values_from(known, location, values, 0);
                match tail {
                    Some(tail) => stored.with_value(known, location, tail, ResultShape::Open),
                    None => stored,
                }
            },
            StatementView::GenericForNext { res_locals, generator, state } => {
                let asked = touched.asking(
                    location,
                    ResultProducer::GeneratorCall,
                    ResultShape::Exact(res_locals.len() as usize),
                );
                EffectView { calls: true, ..asked }.with_values_from(
                    known,
                    location,
                    seq![generator, state],
                    0,
                )
            },
            _ => touched.with_values_from(known, location, statement.rvalues(), 0),
        }
    }
}

impl EffectSummary {
    pub open spec fn view(&self) -> EffectView {
        EffectView {
            calls: self.calls,
            metamethod_capable: self.metamethod_capable,
            local_reads: self.local_reads@,
            local_writes: self.local_writes@,
            upvalue_reads: self.upvalue_reads@,
            upvalue_writes: self.upvalue_writes@,
            table_root_reads: self.table_root_reads@,
            table_root_writes: self.table_root_writes@,
            table_root_escapes: self.table_root_escapes@,
            allocation: self.allocation,
            closure_capture: self.closure_capture,
            result_groups: self.result_groups@,
        }
    }

    /// No set lists a member twice.
    pub open spec fn well_formed(&self) -> bool {
        &&& self.local_reads.well_formed()
        &&& self.local_writes.well_formed()
        &&& self.upvalue_reads.well_formed()
        &&& self.upvalue_writes.well_formed()
        &&& self.table_root_reads.well_formed()
        &&& self.table_root_writes.well_formed()
        &&& self.table_root_escapes.well_formed()
    }

    fn record_result(
        &mut self,
        location: StatementLocation,
        producer: ResultProducer,
        demand: ResultShape,
    )
        requires
            old(self).well_formed(),
        ensures
            final(self).well_formed(),
            final(self)@ == old(self)@.asking(location, producer, demand),
    {
        let ordinal: usize = self.result_groups.len();
        self.result_groups.push(ResultGroupFact { location, ordinal, producer, demand });
    }
}

impl Default for EffectSummary {
    fn default() -> (summary: Self)
        ensures
            summary.well_formed(),
            summary@ == EffectView::nothing(),
    {
        EffectSummary {
            calls: false,
            metamethod_capable: false,
            local_reads: BindingSet::new(),
            local_writes: BindingSet::new(),
            upvalue_reads: BindingSet::new(),
            upvalue_writes: BindingSet::new(),
            table_root_reads: BindingSet::new(),
            table_root_writes: BindingSet::new(),
            table_root_escapes: BindingSet::new(),
            allocation: false,
            closure_capture: false,
            result_groups: Vec::new(),
        }
    }
}

fn root_local(value: &RValue) -> (local: Option<RcLocal>)
    ensures
        local == value@.root_local(),
    decreases value@.size(),
{
    proof {
        nodes::rvalue_node(*value);
    }
    match value {
        RValue::Local(local) => Some(*local),
        RValue::Index(index) => {
            proof {
                model::lemma_child_smaller(value@, 0);
            }
            root_local(&index.left)
        },
        _ => None,
    }
}

fn add_local_bindings(provenance: &Provenance, local: RcLocal, output: &mut BindingSet)
    requires
        provenance.well_formed(),
        old(output).well_formed(),
    ensures
        final(output).well_formed(),
        final(output)@ == old(output)@.union(bindings_of(provenance@, local)),
{
    let bindings = provenance.bindings(local);
    output.extend(&bindings);
}

fn add_root_binding(provenance: &Provenance, value: &RValue, output: &mut BindingSet)
    requires
        provenance.well_formed(),
        old(output).well_formed(),
    ensures
        final(output).well_formed(),
        final(output)@ == old(output)@.union(root_bindings(provenance@, value@)),
{
    match root_local(value) {
        Some(local) => add_local_bindings(provenance, local, output),
        None => {},
    }
    proof {
        assert(output@ =~= old(output)@.union(root_bindings(provenance@, value@)));
    }
}

/// Adds what the locals stand for: the upvalues to one set, all else to the
/// other.
fn add_bindings(
    provenance: &Provenance,
    read: &Vec<RcLocal>,
    locals: &mut BindingSet,
    upvalues: &mut BindingSet,
)
    requires
        provenance.well_formed(),
        old(locals).well_formed(),
        old(upvalues).well_formed(),
    ensures
        final(locals).well_formed(),
        final(upvalues).well_formed(),
        final(locals)@ == old(locals)@.union(sorted_bindings_from(provenance@, read@, 0, false)),
        final(upvalues)@ == old(upvalues)@.union(
            sorted_bindings_from(provenance@, read@, 0, true),
        ),
{
    let mut index: usize = 0;
    while index < read.len()
        invariant
            index <= read.len(),
            provenance.well_formed(),
            locals.well_formed(),
            upvalues.well_formed(),
            locals@.union(sorted_bindings_from(provenance@, read@, index as int, false)) == old(
                locals,
            )@.union(sorted_bindings_from(provenance@, read@, 0, false)),
            upvalues@.union(sorted_bindings_from(provenance@, read@, index as int, true)) == old(
                upvalues,
            )@.union(sorted_bindings_from(provenance@, read@, 0, true)),
        decreases read.len() - index,
    {
        let ghost locals_before = locals@;
        let ghost upvalues_before = upvalues@;
        let bindings = provenance.bindings(read[index]);
        let ghost whole = bindings_of(provenance@, read@[index as int]);
        let ghost listed = bindings.listed();
        let count: usize = bindings.len();
        let mut at: usize = 0;
        proof {
            assert(listed.take(0).to_set() =~= Set::empty());
            assert(locals@ =~= locals_before.union(
                listed.take(0).to_set().filter(|b: BindingView| (b is Upvalue) == false),
            ));
            assert(upvalues@ =~= upvalues_before.union(
                listed.take(0).to_set().filter(|b: BindingView| (b is Upvalue) == true),
            ));
        }
        while at < count
            invariant
                at <= count == listed.len(),
                listed == bindings.listed(),
                locals.well_formed(),
                upvalues.well_formed(),
                locals@ == locals_before.union(
                    listed.take(at as int).to_set().filter(
                        |b: BindingView| (b is Upvalue) == false,
                    ),
                ),
                upvalues@ == upvalues_before.union(
                    listed.take(at as int).to_set().filter(|b: BindingView| (b is Upvalue) == true),
                ),
            decreases count - at,
        {
            let binding = bindings.get(at);
            let ghost shorter = listed.take(at as int);
            let is_upvalue = matches!(binding, BindingIdentity::Upvalue { .. });
            if is_upvalue {
                upvalues.insert(binding.clone());
            } else {
                locals.insert(binding.clone());
            }
            at += 1;
            proof {
                let longer = listed.take(at as int);
                assert(longer =~= shorter.push(binding@));
                shorter.lemma_push_to_set_commute(binding@);
                assert(locals@ =~= locals_before.union(
                    longer.to_set().filter(|b: BindingView| (b is Upvalue) == false),
                ));
                assert(upvalues@ =~= upvalues_before.union(
                    longer.to_set().filter(|b: BindingView| (b is Upvalue) == true),
                ));
            }
        }
        proof {
            assert(listed.take(count as int) =~= listed);
            assert(bindings@ == whole);
            let none = sorted_bindings_from(provenance@, read@, index + 1, false);
            let some = sorted_bindings_from(provenance@, read@, index + 1, true);
            assert(locals@.union(none) =~= locals_before.union(
                sorted_bindings_from(provenance@, read@, index as int, false),
            ));
            assert(upvalues@.union(some) =~= upvalues_before.union(
                sorted_bindings_from(provenance@, read@, index as int, true),
            ));
        }
        index += 1;
    }
    proof {
        assert(locals@ =~= locals@.union(Set::empty()));
        assert(upvalues@ =~= upvalues@.union(Set::empty()));
    }
}

impl EffectSummary {
    fn add_call(
        &mut self,
        provenance: &Provenance,
        location: StatementLocation,
        callee: &RValue,
        arguments: &Vec<RValue>,
    )
        requires
            provenance.well_formed(),
            old(self).well_formed(),
        ensures
            final(self).well_formed(),
            final(self)@ == old(self)@.with_call(
                provenance@,
                location,
                callee@,
                RValue::views(arguments@),
            ),
        decreases callee@.size() + RValueView::sizes_from(RValue::views(arguments@), 0), 2int,
    {
        self.calls = true;
        proof {
            assert(self@ =~= (EffectView { calls: true, ..old(self)@ }));
        }
        self.add_value(provenance, location, callee, ResultShape::Exact(1));
        self.add_arguments(provenance, location, arguments);
    }

    fn add_method_call(
        &mut self,
        provenance: &Provenance,
        location: StatementLocation,
        receiver: &RValue,
        arguments: &Vec<RValue>,
    )
        requires
            provenance.well_formed(),
            old(self).well_formed(),
        ensures
            final(self).well_formed(),
            final(self)@ == old(self)@.with_method_call(
                provenance@,
                location,
                receiver@,
                RValue::views(arguments@),
            ),
        decreases receiver@.size() + RValueView::sizes_from(RValue::views(arguments@), 0), 2int,
    {
        self.calls = true;
        self.metamethod_capable = true;
        add_root_binding(provenance, receiver, &mut self.table_root_reads);
        proof {
            assert(self@ =~= (EffectView {
                calls: true,
                metamethod_capable: true,
                table_root_reads: old(self)@.table_root_reads.union(
                    root_bindings(provenance@, receiver@),
                ),
                ..old(self)@
            }));
        }
        self.add_value(provenance, location, receiver, ResultShape::Exact(1));
        self.add_arguments(provenance, location, arguments);
    }

    fn add_arguments(
        &mut self,
        provenance: &Provenance,
        location: StatementLocation,
        arguments: &Vec<RValue>,
    )
        requires
            provenance.well_formed(),
            old(self).well_formed(),
        ensures
            final(self).well_formed(),
            final(self)@ == old(self)@.with_arguments_from(
                provenance@,
                location,
                RValue::views(arguments@),
                0,
            ),
        decreases RValueView::sizes_from(RValue::views(arguments@), 0), 1int,
    {
        let ghost views = RValue::views(arguments@);
        let mut index: usize = 0;
        while index < arguments.len()
            invariant
                index <= arguments.len(),
                views == RValue::views(arguments@),
                provenance.well_formed(),
                self.well_formed(),
                self@.with_arguments_from(provenance@, location, views, index as int) == old(
                    self,
                )@.with_arguments_from(provenance@, location, views, 0),
            decreases arguments.len() - index,
        {
            proof {
                model::lemma_sizes_member(views, 0, index as int);
            }
            let demand = if index + 1 == arguments.len() {
                ResultShape::Open
            } else {
                ResultShape::Exact(1)
            };
            let ghost before = self@;
            self.add_value(provenance, location, &arguments[index], demand);
            let ghost nested = self@;
            add_root_binding(provenance, &arguments[index], &mut self.table_root_escapes);
            proof {
                assert(self@ =~= (EffectView {
                    table_root_escapes: nested.table_root_escapes.union(
                        root_bindings(provenance@, views[index as int]),
                    ),
                    ..nested
                }));
            }
            index += 1;
        }
    }

    fn add_values(
        &mut self,
        provenance: &Provenance,
        location: StatementLocation,
        values: &Vec<&RValue>,
    )
        requires
            provenance.well_formed(),
            old(self).well_formed(),
        ensures
            final(self).well_formed(),
            final(self)@ == old(self)@.with_values_from(
                provenance@,
                location,
                RValue::borrowed(values@),
                0,
            ),
        decreases RValueView::sizes_from(RValue::borrowed(values@), 0), 1int,
    {
        let ghost views = RValue::borrowed(values@);
        let mut index: usize = 0;
        while index < values.len()
            invariant
                index <= values.len(),
                views == RValue::borrowed(values@),
                provenance.well_formed(),
                self.well_formed(),
                self@.with_values_from(provenance@, location, views, index as int) == old(
                    self,
                )@.with_values_from(provenance@, location, views, 0),
            decreases values.len() - index,
        {
            proof {
                model::lemma_sizes_member(views, 0, index as int);
            }
            self.add_value(provenance, location, values[index], ResultShape::Exact(1));
            index += 1;
        }
    }

    fn add_fields(
        &mut self,
        provenance: &Provenance,
        location: StatementLocation,
        fields: &Vec<(Option<RValue>, RValue)>,
    )
        requires
            provenance.well_formed(),
            old(self).well_formed(),
        ensures
            final(self).well_formed(),
            final(self)@ == old(self)@.with_fields_from(
                provenance@,
                location,
                RValue::field_views(fields@),
                0,
            ),
        decreases RValueView::field_sizes_from(RValue::field_views(fields@), 0), 1int,
    {
        let ghost views = RValue::field_views(fields@);
        let mut index: usize = 0;
        while index < fields.len()
            invariant
                index <= fields.len(),
                views == RValue::field_views(fields@),
                provenance.well_formed(),
                self.well_formed(),
                RValueView::field_sizes_from(views, index as int)
                    <= RValueView::field_sizes_from(views, 0),
                self@.with_fields_from(provenance@, location, views, index as int) == old(
                    self,
                )@.with_fields_from(provenance@, location, views, 0),
            decreases fields.len() - index,
        {
            proof {
                lemma_field_step(views, index as int);
            }
            match &fields[index].0 {
                Some(key) => self.add_value(provenance, location, key, ResultShape::Exact(1)),
                None => {},
            }
            let demand = if fields[index].0.is_none() && index + 1 == fields.len() {
                ResultShape::Open
            } else {
                ResultShape::Exact(1)
            };
            self.add_value(provenance, location, &fields[index].1, demand);
            index += 1;
        }
    }

    /// Adds the evaluation of an expression, of which `demand` results are
    /// asked for.
    fn add_value(
        &mut self,
        provenance: &Provenance,
        location: StatementLocation,
        value: &RValue,
        demand: ResultShape,
    )
        requires
            provenance.well_formed(),
            old(self).well_formed(),
        ensures
            final(self).well_formed(),
            final(self)@ == old(self)@.with_value(provenance@, location, value@, demand),
        decreases value@.size(), 0int,
    {
        proof {
            nodes::rvalue_node(*value);
            lemma_value_step(value@);
        }
        match value {
            RValue::Call(call) => {
                self.record_result(location, ResultProducer::Call, demand);
                self.add_call(provenance, location, &call.value, &call.arguments);
            },
            RValue::MethodCall(call) => {
                self.record_result(location, ResultProducer::MethodCall, demand);
                self.add_method_call(provenance, location, &call.value, &call.arguments);
            },
            RValue::VarArg(_) => self.record_result(location, ResultProducer::VarArg, demand),
            RValue::Select(Select::Call(call)) => {
                self.record_result(location, ResultProducer::Call, ResultShape::Exact(1));
                self.add_call(provenance, location, &call.value, &call.arguments);
            },
            RValue::Select(Select::MethodCall(call)) => {
                self.record_result(location, ResultProducer::MethodCall, ResultShape::Exact(1));
                self.add_method_call(provenance, location, &call.value, &call.arguments);
            },
            RValue::Select(Select::VarArg(_)) => {
                self.record_result(location, ResultProducer::VarArg, ResultShape::Exact(1));
            },
            RValue::Table(table) => {
                self.allocation = true;
                proof {
                    assert(self@ =~= (EffectView { allocation: true, ..old(self)@ }));
                }
                self.add_fields(provenance, location, &table.0);
            },
            RValue::Closure(closure) => {
                self.allocation = true;
                if closure.upvalues.len() > 0 {
                    self.closure_capture = true;
                }
            },
            RValue::Index(index) => {
                self.metamethod_capable = true;
                add_root_binding(provenance, &index.left, &mut self.table_root_reads);
                proof {
                    assert(self@ =~= (EffectView {
                        metamethod_capable: true,
                        table_root_reads: old(self)@.table_root_reads.union(
                            root_bindings(provenance@, index.left@),
                        ),
                        ..old(self)@
                    }));
                }
                let operands = value.rvalues();
                self.add_values(provenance, location, &operands);
            },
            RValue::Binary(binary) => {
                if binary.operation != BinaryOperation::And && binary.operation
                    != BinaryOperation::Or {
                    self.metamethod_capable = true;
                }
                proof {
                    assert(self@ =~= (EffectView {
                        metamethod_capable: old(self)@.metamethod_capable
                            || !binary.operation.is_logical(),
                        ..old(self)@
                    }));
                }
                let operands = value.rvalues();
                self.add_values(provenance, location, &operands);
            },
            RValue::Unary(unary) => {
                if unary.operation != UnaryOperation::Not {
                    self.metamethod_capable = true;
                }
                proof {
                    assert(self@ =~= (EffectView {
                        metamethod_capable: old(self)@.metamethod_capable || unary.operation
                            != UnaryOperation::Not,
                        ..old(self)@
                    }));
                }
                let operands = value.rvalues();
                self.add_values(provenance, location, &operands);
            },
            RValue::Conditional(_) => {
                let operands = value.rvalues();
                self.add_values(provenance, location, &operands);
            },
            RValue::Local(_) | RValue::Global(_) | RValue::Literal(_) => {},
        }
    }

    fn add_targets(&mut self, provenance: &Provenance, targets: &Vec<LValue>)
        requires
            provenance.well_formed(),
            old(self).well_formed(),
        ensures
            final(self).well_formed(),
            final(self)@ == old(self)@.with_targets_from(
                provenance@,
                LValue::views(targets@),
                0,
            ),
    {
        let ghost views = LValue::views(targets@);
        let mut index: usize = 0;
        while index < targets.len()
            invariant
                index <= targets.len(),
                views == LValue::views(targets@),
                provenance.well_formed(),
                self.well_formed(),
                self@.with_targets_from(provenance@, views, index as int) == old(
                    self,
                )@.with_targets_from(provenance@, views, 0),
            decreases targets.len() - index,
        {
            let ghost before = self@;
            proof {
                nodes::lvalue_node(targets@[index as int]);
            }
            match &targets[index] {
                LValue::Index(place) => {
                    self.metamethod_capable = true;
                    add_root_binding(provenance, &place.left, &mut self.table_root_writes);
                    proof {
                        assert(self@ =~= (EffectView {
                            metamethod_capable: true,
                            table_root_writes: before.table_root_writes.union(
                                root_bindings(provenance@, place.left@),
                            ),
                            ..before
                        }));
                    }
                },
                _ => {},
            }
            index += 1;
        }
    }

    fn add_assigned(
        &mut self,
        provenance: &Provenance,
        location: StatementLocation,
        values: &Vec<RValue>,
        targets: usize,
    )
        requires
            provenance.well_formed(),
            old(self).well_formed(),
        ensures
            final(self).well_formed(),
            final(self)@ == old(self)@.with_assigned_from(
                provenance@,
                location,
                RValue::views(values@),
                targets as int,
                0,
            ),
    {
        let ghost views = RValue::views(values@);
        let mut index: usize = 0;
        while index < values.len()
            invariant
                index <= values.len(),
                views == RValue::views(values@),
                provenance.well_formed(),
                self.well_formed(),
                self@.with_assigned_from(
                    provenance@,
                    location,
                    views,
                    targets as int,
                    index as int,
                ) == old(self)@.with_assigned_from(
                    provenance@,
                    location,
                    views,
                    targets as int,
                    0,
                ),
            decreases values.len() - index,
        {
            let demand = if index + 1 == values.len() {
                ResultShape::Exact(targets.saturating_sub(index))
            } else {
                ResultShape::Exact(1)
            };
            self.add_value(provenance, location, &values[index], demand);
            index += 1;
        }
    }

    fn add_returned(
        &mut self,
        provenance: &Provenance,
        location: StatementLocation,
        values: &Vec<RValue>,
    )
        requires
            provenance.well_formed(),
            old(self).well_formed(),
        ensures
            final(self).well_formed(),
            final(self)@ == old(self)@.with_returned_from(
                provenance@,
                location,
                RValue::views(values@),
                0,
            ),
    {
        let ghost views = RValue::views(values@);
        let mut index: usize = 0;
        while index < values.len()
            invariant
                index <= values.len(),
                views == RValue::views(values@),
                provenance.well_formed(),
                self.well_formed(),
                self@.with_returned_from(provenance@, location, views, index as int) == old(
                    self,
                )@.with_returned_from(provenance@, location, views, 0),
            decreases values.len() - index,
        {
            let demand = if index + 1 == values.len() {
                ResultShape::Open
            } else {
                ResultShape::Exact(1)
            };
            self.add_value(provenance, location, &values[index], demand);
            let ghost nested = self@;
            add_root_binding(provenance, &values[index], &mut self.table_root_escapes);
            proof {
                assert(self@ =~= (EffectView {
                    table_root_escapes: nested.table_root_escapes.union(
                        root_bindings(provenance@, views[index as int]),
                    ),
                    ..nested
                }));
            }
            index += 1;
        }
    }
}

/// What a statement does.
pub fn summarize_effects(
    function: &Function,
    location: StatementLocation,
    statement: &Statement,
) -> (summary: EffectSummary)
    requires
        function.well_formed(),
    ensures
        summary.well_formed(),
        summary@ == EffectView::of_statement(function@.provenance, location, statement@),
{
    let provenance = function.provenance();
    let mut summary = EffectSummary::default();
    let read = statement.values_read();
    add_bindings(provenance, &read, &mut summary.local_reads, &mut summary.upvalue_reads);
    let written = statement.values_written();
    add_bindings(provenance, &written, &mut summary.local_writes, &mut summary.upvalue_writes);
    let ghost known = provenance@;
    proof {
        nodes::statement_node(*statement);
        assert(summary@ =~= EffectView::touching(known, statement@));
    }
    let ghost touched = summary@;
    match statement {
        Statement::Call(call) => {
            summary.record_result(location, ResultProducer::Call, ResultShape::Exact(0));
            summary.add_call(provenance, location, &call.value, &call.arguments);
        },
        Statement::MethodCall(call) => {
            summary.record_result(location, ResultProducer::MethodCall, ResultShape::Exact(0));
            summary.add_method_call(provenance, location, &call.value, &call.arguments);
        },
        Statement::Assign(assign) => {
            proof {
                nodes::assign_node(*assign);
            }
            summary.add_targets(provenance, &assign.left);
            summary.add_assigned(provenance, location, &assign.right, assign.left.len());
        },
        Statement::GenericForInit(init) => {
            proof {
                nodes::assign_node(init.0);
            }
            summary.add_targets(provenance, &init.0.left);
            summary.add_assigned(provenance, location, &init.0.right, init.0.left.len());
        },
        Statement::Return(returned) => summary.add_returned(
            provenance,
            location,
            &returned.values,
        ),
        Statement::SetList(list) => {
            add_local_bindings(provenance, list.object_local, &mut summary.table_root_writes);
            proof {
                assert(summary@ =~= (EffectView {
                    table_root_writes: touched.table_root_writes.union(
                        bindings_of(known, list.object_local),
                    ),
                    ..touched
                }));
            }
            let values = crate::ast::shape::borrow_all(&list.values);
            summary.add_values(provenance, location, &values);
            match &list.tail {
                Some(tail) => summary.add_value(provenance, location, tail, ResultShape::Open),
                None => {},
            }
        },
        Statement::GenericForNext(next) => {
            summary.record_result(
                location,
                ResultProducer::GeneratorCall,
                ResultShape::Exact(next.res_locals.len()),
            );
            summary.calls = true;
            let values = statement.rvalues();
            proof {
                assert(summary@ =~= (EffectView {
                    calls: true,
                    ..touched.asking(
                        location,
                        ResultProducer::GeneratorCall,
                        ResultShape::Exact(next.res_locals@.len() as usize),
                    )
                }));
            }
            summary.add_values(provenance, location, &values);
        },
        _ => {
            let values = statement.rvalues();
            summary.add_values(provenance, location, &values);
        },
    }
    summary
}

} // verus!
