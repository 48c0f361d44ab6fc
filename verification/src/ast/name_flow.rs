//! Carrying parameter names backwards to the arguments that feed them.
//!
//! A local passed as the first argument of `push_stack(stack, value)` is a
//! stack. The callee already states that; this pass moves the statement to
//! where a reader needs it. It never renames a local that already has a name.

use vstd::prelude::*;

use rustc_hash::FxHashMap;

use crate::ast::local::{is_valid_identifier, Locals, RcLocal};
use crate::ast::name_evidence::{add_text, Agreement};
use crate::ast::nodes::{
    Assign, AssignView, Block, Call, CallView, Closure, LValueView, RValue, RValueView, Select,
    SelectView, Statement, StatementView,
};
use crate::ast::{model, name_locals, nodes};
use crate::collections::{empty_map, find_entry, insert_entry, remove_entry};

verus! {

broadcast use nodes::group_views;

/// The names of the parameters of a callee, where they are fit for a local.
pub type Signature = Seq<Option<Seq<char>>>;

/// The names of parameters that are fit for a local.
pub open spec fn parameter_names(
    parameters: Seq<RcLocal>,
    names: Seq<Option<Seq<char>>>,
) -> Signature {
    Seq::new(
        parameters.len(),
        |i: int| name_locals::kept(false, Locals::name_in(names, parameters[i])),
    )
}

/// The local that an assignment defines as a function, with the names of its
/// parameters.
pub open spec fn callee(assign: AssignView, names: Seq<Option<Seq<char>>>) -> Option<
    (RcLocal, Signature),
> {
    if assign.left.len() == 1 && assign.right.len() == 1 {
        match (assign.left[0], assign.right[0]) {
            (LValueView::Local(target), RValueView::Closure(closure)) => Some(
                (target, parameter_names(closure.function.parameters, names)),
            ),
            _ => None,
        }
    } else {
        None
    }
}

/// A map of callees with one more, which replaces an earlier definition.
pub open spec fn with_callee(callees: Map<u64, Signature>, found: Option<(RcLocal, Signature)>) -> Map<
    u64,
    Signature,
> {
    match found {
        Some((target, signature)) => callees.insert(target.id, signature),
        None => callees,
    }
}

impl RValueView {
    /// The callees with those that the functions in an expression define.
    pub open spec fn callees(
        self,
        callees: Map<u64, Signature>,
        names: Seq<Option<Seq<char>>>,
    ) -> Map<u64, Signature>
        decreases self.size(), 0int, 0int,
    {
        proof {
            model::lemma_children_smaller(self);
        }
        Self::callees_from(
            self.children(),
            0,
            StatementView::callees_from(self.body(), 0, callees, names),
            names,
        )
    }

    /// The same for the expressions from position `from` on.
    pub open spec fn callees_from(
        values: Seq<RValueView>,
        from: int,
        callees: Map<u64, Signature>,
        names: Seq<Option<Seq<char>>>,
    ) -> Map<u64, Signature>
        decreases Self::sizes_from(values, from), 1int, 0int,
    {
        proof {
            model::lemma_sizes_step(values, from);
        }
        if 0 <= from < values.len() {
            Self::callees_from(values, from + 1, values[from].callees(callees, names), names)
        } else {
            callees
        }
    }
}

impl StatementView {
    /// The callees with those that a statement defines, in it and in the blocks
    /// and functions nested in it.
    pub open spec fn callees(
        self,
        callees: Map<u64, Signature>,
        names: Seq<Option<Seq<char>>>,
    ) -> Map<u64, Signature>
        decreases self.size(), 0int, 0int,
    {
        proof {
            model::lemma_statement_parts(self);
            model::lemma_rvalues_smaller(self);
        }
        let own = match self {
            StatementView::Assign(assign) => with_callee(callees, callee(assign, names)),
            _ => callees,
        };
        let nested = if self is Do {
            own
        } else {
            Self::block_callees(self.blocks(), 0, own, names)
        };
        RValueView::callees_from(self.rvalues(), 0, nested, names)
    }

    /// The callees with those that the blocks from position `from` on define.
    pub open spec fn block_callees(
        blocks: Seq<Seq<StatementView>>,
        from: int,
        callees: Map<u64, Signature>,
        names: Seq<Option<Seq<char>>>,
    ) -> Map<u64, Signature>
        decreases Self::block_sizes_from(blocks, from), 3int, blocks.len() - from,
    {
        if 0 <= from < blocks.len() {
            Self::block_callees(
                blocks,
                from + 1,
                Self::callees_from(blocks[from], 0, callees, names),
                names,
            )
        } else {
            callees
        }
    }

    /// The callees with those that the statements from position `from` on
    /// define.
    pub open spec fn callees_from(
        statements: Seq<StatementView>,
        from: int,
        callees: Map<u64, Signature>,
        names: Seq<Option<Seq<char>>>,
    ) -> Map<u64, Signature>
        decreases Self::sizes_from(statements, from), 2int, 0int,
    {
        proof {
            model::lemma_statement_sizes_step(statements, from);
        }
        if 0 <= from < statements.len() {
            Self::callees_from(
                statements,
                from + 1,
                statements[from].callees(callees, names),
                names,
            )
        } else {
            callees
        }
    }
}

/// A name proposed for a local.
pub type Proposal = (RcLocal, Seq<char>);

/// What a signature proposes for the arguments from position `from` on that
/// have no name.
pub open spec fn argument_proposals(
    arguments: Seq<RValueView>,
    signature: Signature,
    from: int,
    names: Seq<Option<Seq<char>>>,
) -> Seq<Proposal>
    decreases arguments.len() - from,
{
    if 0 <= from < arguments.len() && from < signature.len() {
        let rest = argument_proposals(arguments, signature, from + 1, names);
        match (arguments[from], signature[from]) {
            (RValueView::Local(argument), Some(name)) => if Locals::name_in(names, argument) is None {
                seq![(argument, name)] + rest
            } else {
                rest
            },
            _ => rest,
        }
    } else {
        Seq::empty()
    }
}

/// What a call proposes for its arguments.
pub open spec fn call_proposals(
    call: CallView,
    callees: Map<u64, Signature>,
    names: Seq<Option<Seq<char>>>,
) -> Seq<Proposal> {
    match *call.value {
        RValueView::Local(callee) => if callees.dom().contains(callee.id) {
            argument_proposals(call.arguments, callees[callee.id], 0, names)
        } else {
            Seq::empty()
        },
        _ => Seq::empty(),
    }
}

impl RValueView {
    /// What the calls in an expression propose.
    pub open spec fn proposals(
        self,
        callees: Map<u64, Signature>,
        names: Seq<Option<Seq<char>>>,
    ) -> Seq<Proposal>
        decreases self.size(), 0int,
    {
        proof {
            model::lemma_children_smaller(self);
        }
        let own = match self {
            RValueView::Call(call) => call_proposals(call, callees, names),
            RValueView::Select(SelectView::Call(call)) => call_proposals(call, callees, names),
            _ => Seq::empty(),
        };
        own + Self::proposals_from(self.children(), 0, callees, names)
    }

    /// What the calls in the expressions from position `from` on propose.
    pub open spec fn proposals_from(
        values: Seq<RValueView>,
        from: int,
        callees: Map<u64, Signature>,
        names: Seq<Option<Seq<char>>>,
    ) -> Seq<Proposal>
        decreases Self::sizes_from(values, from), 1int,
    {
        proof {
            model::lemma_sizes_step(values, from);
        }
        if 0 <= from < values.len() {
            values[from].proposals(callees, names) + Self::proposals_from(
                values,
                from + 1,
                callees,
                names,
            )
        } else {
            Seq::empty()
        }
    }

    /// What the calls in the functions in an expression propose.
    pub open spec fn inner_proposals(
        self,
        callees: Map<u64, Signature>,
        names: Seq<Option<Seq<char>>>,
    ) -> Seq<Proposal>
        decreases self.size(), 0int, 0int,
    {
        proof {
            model::lemma_children_smaller(self);
        }
        StatementView::proposals_from(self.body(), 0, callees, names) + Self::inner_proposals_from(
            self.children(),
            0,
            callees,
            names,
        )
    }

    /// The same for the expressions from position `from` on.
    pub open spec fn inner_proposals_from(
        values: Seq<RValueView>,
        from: int,
        callees: Map<u64, Signature>,
        names: Seq<Option<Seq<char>>>,
    ) -> Seq<Proposal>
        decreases Self::sizes_from(values, from), 1int, 0int,
    {
        proof {
            model::lemma_sizes_step(values, from);
        }
        if 0 <= from < values.len() {
            values[from].inner_proposals(callees, names) + Self::inner_proposals_from(
                values,
                from + 1,
                callees,
                names,
            )
        } else {
            Seq::empty()
        }
    }
}

impl StatementView {
    /// What the calls in a statement propose, in the blocks and functions
    /// nested in it too.
    pub open spec fn proposals(
        self,
        callees: Map<u64, Signature>,
        names: Seq<Option<Seq<char>>>,
    ) -> Seq<Proposal>
        decreases self.size(), 0int, 0int,
    {
        proof {
            model::lemma_statement_parts(self);
            model::lemma_rvalues_smaller(self);
        }
        let own = match self {
            StatementView::Call(call) => call_proposals(call, callees, names),
            _ => Seq::empty(),
        };
        let nested = if self is Do {
            Seq::empty()
        } else {
            Self::block_proposals(self.blocks(), 0, callees, names)
        };
        own + RValueView::proposals_from(self.rvalues(), 0, callees, names) + nested
            + RValueView::inner_proposals_from(self.rvalues(), 0, callees, names)
    }

    /// What the calls in the blocks from position `from` on propose.
    pub open spec fn block_proposals(
        blocks: Seq<Seq<StatementView>>,
        from: int,
        callees: Map<u64, Signature>,
        names: Seq<Option<Seq<char>>>,
    ) -> Seq<Proposal>
        decreases Self::block_sizes_from(blocks, from), 3int, blocks.len() - from,
    {
        if 0 <= from < blocks.len() {
            Self::proposals_from(blocks[from], 0, callees, names) + Self::block_proposals(
                blocks,
                from + 1,
                callees,
                names,
            )
        } else {
            Seq::empty()
        }
    }

    /// What the calls in the statements from position `from` on propose.
    pub open spec fn proposals_from(
        statements: Seq<StatementView>,
        from: int,
        callees: Map<u64, Signature>,
        names: Seq<Option<Seq<char>>>,
    ) -> Seq<Proposal>
        decreases Self::sizes_from(statements, from), 2int, 0int,
    {
        proof {
            model::lemma_statement_sizes_step(statements, from);
        }
        if 0 <= from < statements.len() {
            statements[from].proposals(callees, names) + Self::proposals_from(
                statements,
                from + 1,
                callees,
                names,
            )
        } else {
            Seq::empty()
        }
    }
}

/// What the first `count` proposals for a local agree on.
pub open spec fn agreed(proposals: Seq<Proposal>, count: int, local: RcLocal) -> Agreement<Seq<char>>
    decreases count,
{
    if count <= 0 {
        Agreement::Nothing
    } else if proposals[count - 1].0 == local {
        agreed(proposals, count - 1, local).with(proposals[count - 1].1)
    } else {
        agreed(proposals, count - 1, local)
    }
}

/// The names of locals, with those that have none named as the proposals agree.
pub open spec fn with_proposals(
    names: Seq<Option<Seq<char>>>,
    proposals: Seq<Proposal>,
) -> Seq<Option<Seq<char>>> {
    Seq::new(
        names.len(),
        |i: int|
            if names[i] is None {
                agreed(proposals, proposals.len() as int, RcLocal { id: i as u64 }).only()
            } else {
                names[i]
            },
    )
}

/// What a block proposes for its locals.
pub open spec fn block_proposals(
    block: Seq<StatementView>,
    names: Seq<Option<Seq<char>>>,
) -> Seq<Proposal> {
    StatementView::proposals_from(
        block,
        0,
        StatementView::callees_from(block, 0, Map::empty(), names),
        names,
    )
}

/// A local that has a name keeps it.
pub proof fn names_are_kept(names: Seq<Option<Seq<char>>>, proposals: Seq<Proposal>, local: RcLocal)
    requires
        local.id < names.len(),
        names[local.id as int] is Some,
    ensures
        Locals::name_in(with_proposals(names, proposals), local) == names[local.id as int],
{
}

/// Two call sites that propose different names for a local leave it without
/// one.
pub proof fn disagreement_leaves_unnamed(
    names: Seq<Option<Seq<char>>>,
    proposals: Seq<Proposal>,
    local: RcLocal,
    i: int,
    j: int,
)
    requires
        local.id < names.len(),
        names[local.id as int] is None,
        0 <= i < proposals.len(),
        0 <= j < proposals.len(),
        proposals[i].0 == local,
        proposals[j].0 == local,
        proposals[i].1 != proposals[j].1,
    ensures
        Locals::name_in(with_proposals(names, proposals), local) is None,
{
    lemma_agreed(proposals, proposals.len() as int, local, i);
    lemma_agreed(proposals, proposals.len() as int, local, j);
}

proof fn lemma_agreed(proposals: Seq<Proposal>, count: int, local: RcLocal, i: int)
    requires
        0 <= i < count <= proposals.len(),
        proposals[i].0 == local,
    ensures
        agreed(proposals, count, local) is Several || agreed(proposals, count, local)
            == Agreement::Single(proposals[i].1),
    decreases count,
{
    if i < count - 1 {
        lemma_agreed(proposals, count - 1, local, i);
    }
}

/// The signatures of an executable map.
pub open spec fn signatures(map: Map<u64, Vec<Option<String>>>) -> Map<u64, Signature> {
    Map::new(|id: u64| map.dom().contains(id), |id: u64| signature_of(map[id]@))
}

/// The signature that a list of names gives.
pub open spec fn signature_of(names: Seq<Option<String>>) -> Signature {
    Seq::new(names.len(), |i: int| crate::ast::local::text_of(names[i]))
}

fn find_parameter_names(closure: &Closure, locals: &Locals) -> (found: Vec<Option<String>>)
    ensures
        signature_of(found@) == parameter_names(closure@.function.parameters, locals@),
{
    let parameters = &closure.function.parameters;
    let mut found: Vec<Option<String>> = Vec::new();
    let mut index: usize = 0;
    while index < parameters.len()
        invariant
            index <= parameters@.len(),
            found@.len() == index,
            forall|i: int|
                0 <= i < index ==> crate::ast::local::text_of(#[trigger] found@[i])
                    == name_locals::kept(false, Locals::name_in(locals@, parameters@[i])),
        decreases parameters.len() - index,
    {
        let name = match locals.name(parameters[index]) {
            Some(name) => if is_valid_identifier(name.as_str().as_bytes()) {
                Some(name)
            } else {
                None
            },
            None => None,
        };
        found.push(name);
        index += 1;
    }
    proof {
        assert(signature_of(found@) =~= parameter_names(closure@.function.parameters, locals@));
    }
    found
}

fn record_callee(assign: &Assign, locals: &Locals, callees: &mut FxHashMap<u64, Vec<Option<String>>>)
    ensures
        signatures(final(callees)@) == with_callee(
            signatures(old(callees)@),
            callee(assign@, locals@),
        ),
{
    proof {
        nodes::assign_node(*assign);
    }
    if assign.left.len() != 1 || assign.right.len() != 1 {
        return;
    }
    proof {
        assert(assign@.left[0] == assign.left@[0]@);
        assert(assign@.right[0] == assign.right@[0]@);
        nodes::rvalue_node(assign.right@[0]);
    }
    if let (Some(target), RValue::Closure(closure)) = (assign.left[0].as_local(), &assign.right[0]) {
        let found = find_parameter_names(closure, locals);
        let ghost signature = signature_of(found@);
        insert_entry(callees, target.id, found);
        proof {
            assert(signatures(callees@) =~= signatures(old(callees)@).insert(target.id, signature));
        }
    }
}

fn collect_value_callees(
    value: &RValue,
    locals: &Locals,
    callees: &mut FxHashMap<u64, Vec<Option<String>>>,
)
    ensures
        signatures(final(callees)@) == value@.callees(signatures(old(callees)@), locals@),
    decreases value@.size(), 0int, 0int,
{
    let ghost whole = value@;
    proof {
        nodes::rvalue_node(*value);
        model::lemma_children_smaller(whole);
    }
    if let RValue::Closure(closure) = value {
        collect_callees(&closure.function.body, locals, callees);
    }
    collect_all_callees(value.rvalues(), locals, callees);
}

fn collect_all_callees(
    values: Vec<&RValue>,
    locals: &Locals,
    callees: &mut FxHashMap<u64, Vec<Option<String>>>,
)
    ensures
        signatures(final(callees)@) == RValueView::callees_from(
            RValue::borrowed(values@),
            0,
            signatures(old(callees)@),
            locals@,
        ),
    decreases RValueView::sizes_from(RValue::borrowed(values@), 0), 1int, 0int,
{
    let ghost views = RValue::borrowed(values@);
    let ghost whole = RValueView::callees_from(views, 0, signatures(callees@), locals@);
    let mut index: usize = 0;
    while index < values.len()
        invariant
            index <= values@.len() == views.len(),
            views == RValue::borrowed(values@),
            whole == RValueView::callees_from(
                views,
                index as int,
                signatures(callees@),
                locals@,
            ),
        decreases values.len() - index,
    {
        proof {
            model::lemma_sizes_member(views, 0, index as int);
        }
        collect_value_callees(values[index], locals, callees);
        index += 1;
    }
}

fn collect_statement_callees(
    statement: &Statement,
    locals: &Locals,
    callees: &mut FxHashMap<u64, Vec<Option<String>>>,
)
    ensures
        signatures(final(callees)@) == statement@.callees(signatures(old(callees)@), locals@),
    decreases statement@.size(), 0int, 0int,
{
    let ghost whole = statement@;
    let ghost start = signatures(callees@);
    proof {
        nodes::statement_node(*statement);
        model::lemma_statement_parts(whole);
        model::lemma_rvalues_smaller(whole);
    }
    if let Statement::Assign(assign) = statement {
        record_callee(assign, locals, callees);
    }
    let ghost own = signatures(callees@);
    if !matches!(statement, Statement::Do(_)) {
        let blocks = statement.blocks();
        let ghost views = Block::borrowed(blocks@);
        let mut index: usize = 0;
        while index < blocks.len()
            invariant
                index <= blocks@.len() == views.len(),
                views == Block::borrowed(blocks@),
                whole == statement@,
                StatementView::block_sizes_from(views, 0) < whole.size(),
                StatementView::block_callees(views, 0, own, locals@)
                    == StatementView::block_callees(
                    views,
                    index as int,
                    signatures(callees@),
                    locals@,
                ),
            decreases blocks.len() - index,
        {
            proof {
                model::lemma_block_sizes_member(views, 0, index as int);
            }
            collect_callees(blocks[index], locals, callees);
            index += 1;
        }
    }
    collect_all_callees(statement.rvalues(), locals, callees);
}

fn collect_callees(
    block: &Block,
    locals: &Locals,
    callees: &mut FxHashMap<u64, Vec<Option<String>>>,
)
    ensures
        signatures(final(callees)@) == StatementView::callees_from(
            block@,
            0,
            signatures(old(callees)@),
            locals@,
        ),
    decreases StatementView::sizes_from(block@, 0), 2int, 0int,
{
    let ghost views = block@;
    let ghost whole = StatementView::callees_from(views, 0, signatures(callees@), locals@);
    let mut index: usize = 0;
    while index < block.0.len()
        invariant
            index <= block.0@.len() == views.len(),
            views == block@,
            whole == StatementView::callees_from(
                views,
                index as int,
                signatures(callees@),
                locals@,
            ),
        decreases block.0.len() - index,
    {
        proof {
            model::lemma_statement_sizes_member(views, 0, index as int);
            assert(views[index as int] == block.0@[index as int]@);
        }
        collect_statement_callees(&block.0[index], locals, callees);
        index += 1;
    }
}

/// The models of a list of proposals.
pub open spec fn proposal_views(proposals: Seq<(RcLocal, String)>) -> Seq<Proposal> {
    Seq::new(proposals.len(), |i: int| (proposals[i].0, proposals[i].1@))
}

/// What names are proposed from.
struct Signatures<'a> {
    callees: &'a FxHashMap<u64, Vec<Option<String>>>,
    locals: &'a Locals,
}

impl<'a> Signatures<'a> {
    spec fn callees(&self) -> Map<u64, Signature> {
        signatures(self.callees@)
    }

    spec fn names(&self) -> Seq<Option<Seq<char>>> {
        self.locals@
    }

    fn propose(
        &self,
        arguments: &Vec<RValue>,
        signature: &Vec<Option<String>>,
        proposals: &mut Vec<(RcLocal, String)>,
    )
        ensures
            proposal_views(final(proposals)@) == proposal_views(old(proposals)@)
                + argument_proposals(
                RValue::views(arguments@),
                signature_of(signature@),
                0,
                self.names(),
            ),
    {
        let ghost views = RValue::views(arguments@);
        let ghost parts = signature_of(signature@);
        let ghost names = self.names();
        let ghost whole = proposal_views(proposals@) + argument_proposals(views, parts, 0, names);
        let mut index: usize = 0;
        while index < arguments.len() && index < signature.len()
            invariant
                index <= arguments@.len() == views.len(),
                index <= signature@.len() == parts.len(),
                views == RValue::views(arguments@),
                parts == signature_of(signature@),
                names == self.names(),
                proposal_views(proposals@) + argument_proposals(views, parts, index as int, names)
                    =~= whole,
            decreases arguments.len() - index,
        {
            let ghost before = proposal_views(proposals@);
            proof {
                assert(views[index as int] == arguments@[index as int]@);
            }
            if let (Some(argument), Some(name)) = (arguments[index].as_local(), &signature[index]) {
                if self.locals.name(argument).is_none() {
                    proposals.push((argument, name.clone()));
                    proof {
                        assert(proposal_views(proposals@) =~= before.push((argument, name@)));
                    }
                }
            }
            index += 1;
        }
    }

    fn record_call(&self, call: &Call, proposals: &mut Vec<(RcLocal, String)>)
        ensures
            proposal_views(final(proposals)@) == proposal_views(old(proposals)@) + call_proposals(
                call@,
                self.callees(),
                self.names(),
            ),
    {
        proof {
            nodes::rvalue_node(*call.value);
            assert(proposal_views(proposals@) + Seq::<Proposal>::empty() =~= proposal_views(
                proposals@,
            ));
        }
        if let RValue::Local(callee) = &*call.value {
            if let Some(signature) = find_entry(self.callees, callee.id) {
                self.propose(&call.arguments, signature, proposals);
            }
        }
    }

    fn record_rvalue(&self, value: &RValue, proposals: &mut Vec<(RcLocal, String)>)
        ensures
            proposal_views(final(proposals)@) == proposal_views(old(proposals)@)
                + value@.proposals(self.callees(), self.names()),
        decreases value@.size(), 0int,
    {
        let ghost whole = value@;
        let ghost start = proposal_views(proposals@);
        proof {
            nodes::rvalue_node(*value);
            model::lemma_children_smaller(whole);
            assert(start + Seq::<Proposal>::empty() =~= start);
        }
        match value {
            RValue::Call(call) => self.record_call(call, proposals),
            RValue::Select(Select::Call(call)) => self.record_call(call, proposals),
            _ => {},
        }
        self.record_rvalues(value.rvalues(), proposals);
        proof {
            assert(proposal_views(proposals@) =~= start + whole.proposals(
                self.callees(),
                self.names(),
            ));
        }
    }

    fn record_rvalues(&self, values: Vec<&RValue>, proposals: &mut Vec<(RcLocal, String)>)
        ensures
            proposal_views(final(proposals)@) == proposal_views(old(proposals)@)
                + RValueView::proposals_from(
                RValue::borrowed(values@),
                0,
                self.callees(),
                self.names(),
            ),
        decreases RValueView::sizes_from(RValue::borrowed(values@), 0), 1int,
    {
        let ghost views = RValue::borrowed(values@);
        let ghost whole = proposal_views(proposals@) + RValueView::proposals_from(
            views,
            0,
            self.callees(),
            self.names(),
        );
        let mut index: usize = 0;
        while index < values.len()
            invariant
                index <= values@.len() == views.len(),
                views == RValue::borrowed(values@),
                proposal_views(proposals@) + RValueView::proposals_from(
                    views,
                    index as int,
                    self.callees(),
                    self.names(),
                ) =~= whole,
            decreases values.len() - index,
        {
            proof {
                model::lemma_sizes_member(views, 0, index as int);
            }
            self.record_rvalue(values[index], proposals);
            index += 1;
        }
    }

    fn record_inner(&self, value: &RValue, proposals: &mut Vec<(RcLocal, String)>)
        ensures
            proposal_views(final(proposals)@) == proposal_views(old(proposals)@)
                + value@.inner_proposals(self.callees(), self.names()),
        decreases value@.size(), 0int, 0int,
    {
        let ghost whole = value@;
        let ghost start = proposal_views(proposals@);
        proof {
            nodes::rvalue_node(*value);
            model::lemma_children_smaller(whole);
            assert(start + Seq::<Proposal>::empty() =~= start);
        }
        if let RValue::Closure(closure) = value {
            self.record_block(&closure.function.body, proposals);
        }
        self.record_all_inner(value.rvalues(), proposals);
        proof {
            assert(proposal_views(proposals@) =~= start + whole.inner_proposals(
                self.callees(),
                self.names(),
            ));
        }
    }

    fn record_all_inner(&self, values: Vec<&RValue>, proposals: &mut Vec<(RcLocal, String)>)
        ensures
            proposal_views(final(proposals)@) == proposal_views(old(proposals)@)
                + RValueView::inner_proposals_from(
                RValue::borrowed(values@),
                0,
                self.callees(),
                self.names(),
            ),
        decreases RValueView::sizes_from(RValue::borrowed(values@), 0), 1int, 0int,
    {
        let ghost views = RValue::borrowed(values@);
        let ghost whole = proposal_views(proposals@) + RValueView::inner_proposals_from(
            views,
            0,
            self.callees(),
            self.names(),
        );
        let mut index: usize = 0;
        while index < values.len()
            invariant
                index <= values@.len() == views.len(),
                views == RValue::borrowed(values@),
                proposal_views(proposals@) + RValueView::inner_proposals_from(
                    views,
                    index as int,
                    self.callees(),
                    self.names(),
                ) =~= whole,
            decreases values.len() - index,
        {
            proof {
                model::lemma_sizes_member(views, 0, index as int);
            }
            self.record_inner(values[index], proposals);
            index += 1;
        }
    }

    fn record_blocks(&self, statement: &Statement, proposals: &mut Vec<(RcLocal, String)>)
        ensures
            proposal_views(final(proposals)@) == proposal_views(old(proposals)@)
                + StatementView::block_proposals(
                statement@.blocks(),
                0,
                self.callees(),
                self.names(),
            ),
        decreases statement@.size(), 0int, 0int,
    {
        let blocks = statement.blocks();
        let ghost views = Block::borrowed(blocks@);
        let ghost whole = proposal_views(proposals@) + StatementView::block_proposals(
            views,
            0,
            self.callees(),
            self.names(),
        );
        proof {
            nodes::statement_node(*statement);
            model::lemma_statement_parts(statement@);
        }
        let mut index: usize = 0;
        while index < blocks.len()
            invariant
                index <= blocks@.len() == views.len(),
                views == Block::borrowed(blocks@),
                StatementView::block_sizes_from(views, 0) < statement@.size(),
                proposal_views(proposals@) + StatementView::block_proposals(
                    views,
                    index as int,
                    self.callees(),
                    self.names(),
                ) =~= whole,
            decreases blocks.len() - index,
        {
            proof {
                model::lemma_block_sizes_member(views, 0, index as int);
            }
            self.record_block(blocks[index], proposals);
            index += 1;
        }
    }

    fn record_statement(&self, statement: &Statement, proposals: &mut Vec<(RcLocal, String)>)
        ensures
            proposal_views(final(proposals)@) == proposal_views(old(proposals)@)
                + statement@.proposals(self.callees(), self.names()),
        decreases statement@.size(), 1int, 0int,
    {
        let ghost whole = statement@;
        let ghost start = proposal_views(proposals@);
        proof {
            nodes::statement_node(*statement);
            model::lemma_rvalues_smaller(whole);
            assert(start + Seq::<Proposal>::empty() =~= start);
        }
        if let Statement::Call(call) = statement {
            self.record_call(call, proposals);
        }
        self.record_rvalues(statement.rvalues(), proposals);
        let ghost line = proposal_views(proposals@);
        proof {
            assert(line + Seq::<Proposal>::empty() =~= line);
        }
        if !matches!(statement, Statement::Do(_)) {
            self.record_blocks(statement, proposals);
        }
        self.record_all_inner(statement.rvalues(), proposals);
        proof {
            assert(proposal_views(proposals@) =~= start + whole.proposals(
                self.callees(),
                self.names(),
            ));
        }
    }

    fn record_block(&self, block: &Block, proposals: &mut Vec<(RcLocal, String)>)
        ensures
            proposal_views(final(proposals)@) == proposal_views(old(proposals)@)
                + StatementView::proposals_from(block@, 0, self.callees(), self.names()),
        decreases StatementView::sizes_from(block@, 0), 2int, 0int,
    {
        let ghost views = block@;
        let ghost whole = proposal_views(proposals@) + StatementView::proposals_from(
            views,
            0,
            self.callees(),
            self.names(),
        );
        let mut index: usize = 0;
        while index < block.0.len()
            invariant
                index <= block.0@.len() == views.len(),
                views == block@,
                proposal_views(proposals@) + StatementView::proposals_from(
                    views,
                    index as int,
                    self.callees(),
                    self.names(),
                ) =~= whole,
            decreases block.0.len() - index,
        {
            proof {
                model::lemma_statement_sizes_member(views, 0, index as int);
                assert(views[index as int] == block.0@[index as int]@);
            }
            self.record_statement(&block.0[index], proposals);
            index += 1;
        }
    }
}

/// What a map of agreements has for a local.
spec fn agreement_in(map: Map<u64, Agreement<String>>, local: RcLocal) -> Agreement<Seq<char>> {
    if map.dom().contains(local.id) {
        map[local.id]@
    } else {
        Agreement::Nothing
    }
}

fn weigh_proposals(proposals: Vec<(RcLocal, String)>) -> (map: FxHashMap<u64, Agreement<String>>)
    ensures
        forall|local: RcLocal| #[trigger]
            agreement_in(map@, local) == agreed(
                proposal_views(proposals@),
                proposals@.len() as int,
                local,
            ),
{
    let ghost views = proposal_views(proposals@);
    let count: usize = proposals.len();
    let mut rest = proposals;
    let mut map = empty_map::<Agreement<String>>();
    let mut index: usize = 0;
    while index < count
        invariant
            index <= count == views.len(),
            rest@.len() == count - index,
            proposal_views(rest@) =~= views.skip(index as int),
            forall|local: RcLocal| #[trigger]
                agreement_in(map@, local) == agreed(views, index as int, local),
        decreases count - index,
    {
        let ghost listed = proposal_views(rest@);
        let ghost before = map@;
        let (local, name) = rest.remove(0);
        proof {
            assert(listed[0] == views[index as int]);
            assert(listed[0] == (local, name@));
            assert(proposal_views(rest@) =~= listed.skip(1));
            assert(listed.skip(1) =~= views.skip(index + 1));
            assert(agreement_in(before, local) == agreed(views, index as int, local));
        }
        let held = match remove_entry(&mut map, local.id) {
            Some(held) => held,
            None => Agreement::Nothing,
        };
        let held = add_text(held, name);
        insert_entry(&mut map, local.id, held);
        proof {
            assert forall|other: RcLocal| #[trigger]
                agreement_in(map@, other) == agreed(views, index + 1, other) by {
                assert(agreement_in(before, other) == agreed(views, index as int, other));
                if other.id == local.id {
                    assert(other == local);
                }
            }
        }
        index += 1;
    }
    map
}

/// Names unnamed locals after the parameters they are passed to, where the
/// call sites agree.
pub fn propagate_parameter_names(block: &Block, locals: &mut Locals)
    ensures
        final(locals)@ == with_proposals(old(locals)@, block_proposals(block@, old(locals)@)),
{
    let ghost names = locals@;
    let mut callees = empty_map::<Vec<Option<String>>>();
    proof {
        assert(signatures(callees@) =~= Map::<u64, Signature>::empty());
    }
    collect_callees(block, locals, &mut callees);
    let mut proposals: Vec<(RcLocal, String)> = Vec::new();
    let source = Signatures { callees: &callees, locals: &*locals };
    source.record_block(block, &mut proposals);
    let ghost views = proposal_views(proposals@);
    proof {
        assert(views =~= block_proposals(block@, names));
    }
    let map = weigh_proposals(proposals);
    let count: usize = locals.len();
    let ghost whole = with_proposals(names, views);
    let mut index: usize = 0;
    while index < count
        invariant
            index <= count == names.len(),
            locals@.len() == names.len(),
            whole == with_proposals(names, views),
            forall|local: RcLocal| #[trigger]
                agreement_in(map@, local) == agreed(views, views.len() as int, local),
            forall|i: int| 0 <= i < index ==> locals@[i] == whole[i],
            forall|i: int| index <= i < names.len() ==> locals@[i] == names[i],
        decreases count - index,
    {
        let local = RcLocal { id: index as u64 };
        proof {
            assert(agreement_in(map@, local) == agreed(views, views.len() as int, local));
        }
        if locals.name(local).is_none() {
            if let Some(Agreement::Single(name)) = find_entry(&map, local.id) {
                locals.give_name(local, name.clone());
            }
        }
        index += 1;
    }
    proof {
        assert(locals@ =~= whole);
    }
}

} // verus!
