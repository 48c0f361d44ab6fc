//! Giving every local a name.

use vstd::prelude::*;

use rustc_hash::{FxHashMap, FxHashSet};

use crate::ast::local::{is_valid_identifier, IdentifierContext, Locals, RcLocal};
use crate::ast::local_grouping::add_all;
use crate::ast::name_evidence::{
    collect_evidence, weigh_clues, Agreement, Clue, Evidence, EvidenceView,
};
use crate::ast::nodes::{
    Block, Closure, ClosureView, Function, FunctionView, LValue, LValueView, RValue, RValueView,
    Statement, StatementView, Upvalue,
};
use crate::ast::{local_grouping, model, name_evidence, nodes, shape_laws};
use crate::collections::{
    empty_ordered_set, empty_set, find_entry, has_member, insert_ordered, list_members, OrderedSet,
};
use crate::text::{is_among, owned, push_decimal};

verus! {

broadcast use nodes::group_views;

/// Whether a base with a number behind it is not taken.
pub open spec fn is_free(taken: Seq<Seq<char>>, base: Seq<char>, number: nat) -> bool {
    !taken.contains(base + crate::text::decimal(number))
}

/// Whether a number is the first from `from` on that is free behind a base.
pub open spec fn is_first_free(
    taken: Seq<Seq<char>>,
    base: Seq<char>,
    from: nat,
    number: nat,
) -> bool {
    &&& from <= number
    &&& is_free(taken, base, number)
    &&& forall|other: nat| from <= other < number ==> !#[trigger] is_free(taken, base, other)
}

/// The first number from `from` on that is free behind a base.
pub open spec fn first_free(taken: Seq<Seq<char>>, base: Seq<char>, from: nat) -> nat {
    choose|number: nat| is_first_free(taken, base, from, number)
}

/// A base as a name that is not taken, with a number behind it where the bare
/// base is.
pub open spec fn unique(taken: Seq<Seq<char>>, base: Seq<char>) -> Seq<char> {
    if taken.contains(base) {
        base + crate::text::decimal(first_free(taken, base, 2))
    } else {
        base
    }
}

/// What stands before the number of a local without a better name.
pub open spec fn prefix(parameter: bool) -> Seq<char> {
    if parameter {
        "p"@
    } else {
        "v"@
    }
}

/// What a local wants to be called.
pub enum Wish {
    /// As a base says, made unique.
    Based(Seq<char>),
    /// `_`, since it is never read.
    Discarded,
    /// By a number.
    Numbered,
}

/// The name that a local keeps.
pub open spec fn kept(rename: bool, name: Option<Seq<char>>) -> Option<Seq<char>> {
    match name {
        Some(name) => if !rename && IdentifierContext::is_identifier(
            vstd::utf8::encode_utf8(name),
        ) {
            Some(name)
        } else {
            None
        },
        None => None,
    }
}

/// What a local wants to be called: as it is, as its definition says, as the
/// one field that it is stored in, as its role says, and as its shape says.
pub open spec fn wish(rename: bool, name: Option<Seq<char>>, evidence: EvidenceView) -> Wish {
    if kept(rename, name) is Some {
        Wish::Based(kept(rename, name)->0)
    } else if evidence.defined is Some {
        Wish::Based(evidence.defined->0)
    } else if evidence.fields.only() is Some {
        Wish::Based(evidence.fields.only()->0)
    } else if evidence.role() is Some {
        Wish::Based(evidence.role()->0.text())
    } else if !evidence.read {
        Wish::Discarded
    } else if evidence.final_shape() is Some {
        Wish::Based(evidence.final_shape()->0.text())
    } else {
        Wish::Numbered
    }
}

/// The state of naming.
#[verifier::ext_equal]
pub struct Naming {
    /// The names of the locals.
    pub names: Seq<Option<Seq<char>>>,
    /// The names that are visible here, of the enclosing functions too, so that
    /// an inner binding cannot shadow one that is still visible.
    pub taken: Seq<Seq<char>>,
    /// The next number in this function.
    pub counter: nat,
}

impl Naming {
    /// The numbers below the counter are spent on parameters or locals.
    pub open spec fn well_formed(self) -> bool {
        &&& self.counter >= 1
        &&& forall|number: nat|
            1 <= number < self.counter ==> !(#[trigger] is_free(self.taken, "p"@, number))
                || !is_free(self.taken, "v"@, number)
    }

    /// The state past giving a local a name that is then taken.
    pub open spec fn claimed(self, local: RcLocal, name: Seq<char>) -> Naming {
        Naming {
            names: Locals::with_name(self.names, local, name),
            taken: self.taken.push(name),
            counter: self.counter,
        }
    }

    /// The state past naming a local.
    pub open spec fn assigned(
        self,
        rename: bool,
        local: RcLocal,
        parameter: bool,
        evidence: EvidenceView,
    ) -> Naming {
        match wish(rename, Locals::name_in(self.names, local), evidence) {
            Wish::Based(base) => self.claimed(local, unique(self.taken, base)),
            Wish::Discarded => Naming {
                names: Locals::with_name(self.names, local, "_"@),
                ..self
            },
            Wish::Numbered => {
                let number = first_free(self.taken, prefix(parameter), self.counter);
                Naming {
                    counter: number + 1,
                    ..self.claimed(local, prefix(parameter) + crate::text::decimal(number))
                }
            },
        }
    }

    /// The state past naming the parameters from position `from` on.
    pub open spec fn parameters_named(
        self,
        rename: bool,
        parameters: Seq<RcLocal>,
        from: int,
        block: Seq<StatementView>,
    ) -> Naming
        decreases parameters.len() - from,
    {
        if 0 <= from < parameters.len() {
            self.assigned(
                rename,
                parameters[from],
                true,
                name_evidence::block_evidence(
                    block,
                    local_grouping::numbers(parameters),
                    parameters[from],
                ),
            ).parameters_named(rename, parameters, from + 1, block)
        } else {
            self
        }
    }

    /// The state past naming the declared locals from position `from` on that
    /// are no parameters.
    pub open spec fn locals_named(
        self,
        rename: bool,
        declared: Seq<u64>,
        from: int,
        parameters: Seq<RcLocal>,
        block: Seq<StatementView>,
    ) -> Naming
        decreases declared.len() - from,
    {
        if 0 <= from < declared.len() {
            let ids = local_grouping::numbers(parameters);
            let next = if ids.contains(declared[from]) {
                self
            } else {
                let local = RcLocal { id: declared[from] };
                self.assigned(
                    rename,
                    local,
                    false,
                    name_evidence::block_evidence(block, ids, local),
                )
            };
            next.locals_named(rename, declared, from + 1, parameters, block)
        } else {
            self
        }
    }

    /// The state past naming what a function declares.
    pub open spec fn declared_named(
        self,
        rename: bool,
        parameters: Seq<RcLocal>,
        block: Seq<StatementView>,
    ) -> Naming {
        let declared = all_with(
            all_with(Seq::empty(), parameters),
            StatementView::declared_from(block, 0),
        );
        self.parameters_named(rename, parameters, 0, block).locals_named(
            rename,
            declared,
            0,
            parameters,
            block,
        )
    }
}

/// A list of members with the locals that are not there added in order.
pub open spec fn all_with(members: Seq<u64>, locals: Seq<RcLocal>) -> Seq<u64>
    decreases locals.len(),
{
    if locals.len() == 0 {
        members
    } else {
        crate::collections::with_member(all_with(members, locals.drop_last()), locals.last().id)
    }
}

/// The names of captured locals that are fit for a local.
pub open spec fn upvalue_names(upvalues: Seq<Upvalue>, names: Seq<Option<Seq<char>>>) -> Seq<
    Seq<char>,
>
    decreases upvalues.len(),
{
    if upvalues.len() == 0 {
        Seq::empty()
    } else {
        let before = upvalue_names(upvalues.drop_last(), names);
        match kept(false, Locals::name_in(names, upvalues.last().captured())) {
            Some(name) => before.push(name),
            None => before,
        }
    }
}

impl LValueView {
    /// The locals among the targets from position `from` on.
    pub open spec fn locals_from(targets: Seq<LValueView>, from: int) -> Seq<RcLocal>
        decreases targets.len() - from,
    {
        if 0 <= from < targets.len() {
            let rest = Self::locals_from(targets, from + 1);
            match targets[from] {
                LValueView::Local(local) => seq![local] + rest,
                _ => rest,
            }
        } else {
            Seq::empty()
        }
    }
}

impl StatementView {
    /// The locals that the head of a statement declares.
    pub open spec fn head_declared(self) -> Seq<RcLocal> {
        match self {
            StatementView::Assign(assign) => if assign.prefix {
                LValueView::locals_from(assign.left, 0)
            } else {
                Seq::empty()
            },
            StatementView::Class(class) => seq![class.target],
            StatementView::NumericFor { counter, .. } => seq![counter],
            StatementView::GenericFor { res_locals, .. } => res_locals,
            _ => Seq::empty(),
        }
    }

    /// The locals that a statement declares, in order.
    pub open spec fn declared(self) -> Seq<RcLocal>
        decreases self.size(), 0int, 0int,
    {
        proof {
            model::lemma_statement_parts(self);
        }
        if self is Do {
            Seq::empty()
        } else {
            self.head_declared() + Self::block_declared(self.blocks(), 0)
        }
    }

    /// The locals that the blocks from position `from` on declare.
    pub open spec fn block_declared(blocks: Seq<Seq<StatementView>>, from: int) -> Seq<RcLocal>
        decreases Self::block_sizes_from(blocks, from), 2int, blocks.len() - from,
    {
        if 0 <= from < blocks.len() {
            Self::declared_from(blocks[from], 0) + Self::block_declared(blocks, from + 1)
        } else {
            Seq::empty()
        }
    }

    /// The locals that the statements from position `from` on declare.
    pub open spec fn declared_from(statements: Seq<StatementView>, from: int) -> Seq<RcLocal>
        decreases Self::sizes_from(statements, from), 1int, 0int,
    {
        proof {
            model::lemma_statement_sizes_step(statements, from);
        }
        if 0 <= from < statements.len() {
            statements[from].declared() + Self::declared_from(statements, from + 1)
        } else {
            Seq::empty()
        }
    }

    /// A function's block with its locals and those of the functions in it
    /// named.
    pub open spec fn scope_named(
        block: Seq<StatementView>,
        parameters: Seq<RcLocal>,
        naming: Naming,
        rename: bool,
    ) -> (Naming, Seq<StatementView>)
        decreases Self::sizes_from(block, 0), 2int, 0int,
    {
        Self::named_from(block, 0, naming.declared_named(rename, parameters, block), rename)
    }

    /// The statements from position `from` on with the locals of the functions
    /// in them named.
    pub open spec fn named_from(
        statements: Seq<StatementView>,
        from: int,
        naming: Naming,
        rename: bool,
    ) -> (Naming, Seq<StatementView>)
        decreases Self::sizes_from(statements, from), 1int, 0int,
    {
        proof {
            model::lemma_statement_sizes_step(statements, from);
        }
        if 0 <= from < statements.len() {
            let (next, first) = statements[from].named(naming, rename);
            let (last, rest) = Self::named_from(statements, from + 1, next, rename);
            (last, seq![first] + rest)
        } else {
            (naming, Seq::empty())
        }
    }

    /// This statement with the locals of the functions in it named.
    pub open spec fn named(self, naming: Naming, rename: bool) -> (Naming, StatementView)
        decreases self.size(), 0int, 0int,
    {
        proof {
            model::lemma_statement_parts(self);
        }
        let (next, roots) = RValueView::named_from(self.roots(), 0, naming, rename);
        if self is Do {
            (next, self.with_roots(roots))
        } else {
            let (last, blocks) = Self::blocks_named(self.blocks(), 0, next, rename);
            (last, self.with_roots(roots).with_blocks(blocks))
        }
    }

    /// The blocks from position `from` on with the locals of the functions in
    /// them named.
    pub open spec fn blocks_named(
        blocks: Seq<Seq<StatementView>>,
        from: int,
        naming: Naming,
        rename: bool,
    ) -> (Naming, Seq<Seq<StatementView>>)
        decreases Self::block_sizes_from(blocks, from), 3int, blocks.len() - from,
    {
        if 0 <= from < blocks.len() {
            let (next, first) = Self::named_from(blocks[from], 0, naming, rename);
            let (last, rest) = Self::blocks_named(blocks, from + 1, next, rename);
            (last, seq![first] + rest)
        } else {
            (naming, Seq::empty())
        }
    }
}

impl RValueView {
    /// This closure with another body, and as a method only where `self` is
    /// not taken.
    pub open spec fn with_named_body(self, body: Seq<StatementView>, taken: bool) -> RValueView {
        match self {
            RValueView::Closure(closure) => RValueView::Closure(
                ClosureView {
                    function: Box::new(
                        FunctionView {
                            body,
                            is_method: closure.function.is_method && !taken,
                            ..*closure.function
                        },
                    ),
                    upvalues: closure.upvalues,
                },
            ),
            _ => self,
        }
    }

    /// This expression with the locals of the functions in it named.
    pub open spec fn named(self, naming: Naming, rename: bool) -> (Naming, RValueView)
        decreases self.size(), 0int, 0int,
    {
        proof {
            model::lemma_children_smaller(self);
        }
        match self {
            RValueView::Closure(closure) => {
                let inner = Naming {
                    names: naming.names,
                    taken: naming.taken + upvalue_names(closure.upvalues, naming.names),
                    counter: 1,
                };
                let (after, body) = StatementView::scope_named(
                    self.body(),
                    closure.function.parameters,
                    inner,
                    rename,
                );
                (
                    Naming { names: after.names, ..naming },
                    self.with_named_body(body, naming.taken.contains("self"@)),
                )
            },
            _ => {
                let (next, operands) = Self::named_from(self.children(), 0, naming, rename);
                (next, self.with_children(operands))
            },
        }
    }

    /// The expressions from position `from` on with the locals of the functions
    /// in them named.
    pub open spec fn named_from(
        values: Seq<RValueView>,
        from: int,
        naming: Naming,
        rename: bool,
    ) -> (Naming, Seq<RValueView>)
        decreases Self::sizes_from(values, from), 1int, 0int,
    {
        proof {
            model::lemma_sizes_step(values, from);
        }
        if 0 <= from < values.len() {
            let (next, first) = values[from].named(naming, rename);
            let (last, rest) = Self::named_from(values, from + 1, next, rename);
            (last, seq![first] + rest)
        } else {
            (naming, Seq::empty())
        }
    }
}

proof fn lemma_distinct_members(members: Seq<Seq<char>>, all: Seq<Seq<char>>)
    requires
        members.no_duplicates(),
        forall|i: int| 0 <= i < members.len() ==> all.contains(#[trigger] members[i]),
    ensures
        members.len() <= all.len(),
{
    vstd::seq_lib::seq_to_set_is_finite(all);
    members.unique_seq_to_set();
    all.lemma_cardinality_of_set();
    assert(members.to_set().subset_of(all.to_set()));
    vstd::set_lib::lemma_len_subset(members.to_set(), all.to_set());
}

/// Numbers behind a base give distinct names.
proof fn lemma_numbered_distinct(base: Seq<char>, left: nat, right: nat)
    requires
        base + crate::text::decimal(left) == base + crate::text::decimal(right),
    ensures
        left == right,
{
    let first = base + crate::text::decimal(left);
    let second = base + crate::text::decimal(right);
    assert(first.skip(base.len() as int) =~= crate::text::decimal(left));
    assert(second.skip(base.len() as int) =~= crate::text::decimal(right));
    crate::text::lemma_decimal_injective(left, right);
}

/// No more numbers in a row are taken than names are.
proof fn lemma_taken_numbers(taken: Seq<Seq<char>>, base: Seq<char>, from: nat, to: nat)
    requires
        from <= to,
        forall|number: nat| from <= number < to ==> !#[trigger] is_free(taken, base, number),
    ensures
        to - from <= taken.len(),
{
    let members = Seq::new(
        (to - from) as nat,
        |i: int| base + crate::text::decimal((from + i) as nat),
    );
    assert forall|i: int, j: int| 0 <= i < members.len() && 0 <= j < members.len() && i
        != j implies members[i] != members[j] by {
        if members[i] == members[j] {
            lemma_numbered_distinct(base, (from + i) as nat, (from + j) as nat);
        }
    }
    assert forall|i: int| 0 <= i < members.len() implies taken.contains(#[trigger] members[i]) by {
        assert(!is_free(taken, base, (from + i) as nat));
    }
    lemma_distinct_members(members, taken);
}

/// The counter is no further than the names taken.
proof fn lemma_counter(naming: Naming)
    requires
        naming.well_formed(),
    ensures
        naming.counter <= naming.taken.len() + 1,
{
    let taken = naming.taken;
    let name = |number: nat|
        if is_free(taken, "p"@, number) {
            "v"@ + crate::text::decimal(number)
        } else {
            "p"@ + crate::text::decimal(number)
        };
    let members = Seq::new((naming.counter - 1) as nat, |i: int| name((i + 1) as nat));
    reveal_strlit("p");
    reveal_strlit("v");
    assert forall|i: int, j: int| 0 <= i < members.len() && 0 <= j < members.len() && i
        != j implies members[i] != members[j] by {
        if members[i] == members[j] {
            assert(members[i][0] == members[j][0]);
            let base = if is_free(taken, "p"@, (i + 1) as nat) {
                "v"@
            } else {
                "p"@
            };
            assert(members[i] == base + crate::text::decimal((i + 1) as nat));
            assert(members[j] == base + crate::text::decimal((j + 1) as nat));
            lemma_numbered_distinct(base, (i + 1) as nat, (j + 1) as nat);
        }
    }
    assert forall|i: int| 0 <= i < members.len() implies taken.contains(#[trigger] members[i]) by {
        let number = (i + 1) as nat;
        assert(!is_free(taken, "p"@, number) || !is_free(taken, "v"@, number));
    }
    lemma_distinct_members(members, taken);
}

proof fn lemma_first_free(taken: Seq<Seq<char>>, base: Seq<char>, from: nat, number: nat)
    requires
        is_first_free(taken, base, from, number),
    ensures
        first_free(taken, base, from) == number,
{
    let chosen = first_free(taken, base, from);
    assert(is_first_free(taken, base, from, chosen));
    if chosen < number {
        assert(!is_free(taken, base, chosen));
    }
    if number < chosen {
        assert(!is_free(taken, base, number));
    }
}

/// Some number is free behind every base.
proof fn lemma_some_free(taken: Seq<Seq<char>>, base: Seq<char>, from: nat, tried: nat)
    requires
        forall|other: nat|
            from <= other < from + tried ==> !#[trigger] is_free(taken, base, other),
        tried <= taken.len() + 1,
    ensures
        exists|number: nat| is_first_free(taken, base, from, number),
    decreases taken.len() + 1 - tried,
{
    let next = from + tried;
    if is_free(taken, base, next) {
        assert(is_first_free(taken, base, from, next));
    } else {
        lemma_taken_numbers(taken, base, from, next + 1);
        lemma_some_free(taken, base, from, tried + 1);
    }
}

/// A name that is made unique is not taken.
pub proof fn unique_names_are_free(taken: Seq<Seq<char>>, base: Seq<char>)
    ensures
        !taken.contains(unique(taken, base)),
{
    if taken.contains(base) {
        lemma_some_free(taken, base, 2, 0);
        assert(is_first_free(taken, base, 2, first_free(taken, base, 2)));
        assert(is_free(taken, base, first_free(taken, base, 2)));
    }
}

/// Naming a local gives it a name that no visible binding has, and which no
/// binding named later can have; only a local that is never read becomes `_`,
/// which leaves the visible names as they are.
pub proof fn named_locals_do_not_shadow(
    naming: Naming,
    rename: bool,
    local: RcLocal,
    parameter: bool,
    evidence: EvidenceView,
)
    requires
        local.id < naming.names.len(),
    ensures
        ({
            let after = naming.assigned(rename, local, parameter, evidence);
            let name = Locals::name_in(after.names, local);
            &&& name is Some
            &&& if wish(rename, Locals::name_in(naming.names, local), evidence) is Discarded {
                !evidence.read && name->0 == "_"@ && after.taken == naming.taken
            } else {
                !naming.taken.contains(name->0) && after.taken == naming.taken.push(name->0)
            }
        }),
{
    match wish(rename, Locals::name_in(naming.names, local), evidence) {
        Wish::Based(base) => unique_names_are_free(naming.taken, base),
        Wish::Discarded => {},
        Wish::Numbered => {
            let base = prefix(parameter);
            lemma_some_free(naming.taken, base, naming.counter, 0);
            let number = first_free(naming.taken, base, naming.counter);
            assert(is_first_free(naming.taken, base, naming.counter, number));
            assert(is_free(naming.taken, base, number));
        },
    }
}

proof fn lemma_claimed(naming: Naming, local: RcLocal, name: Seq<char>)
    requires
        naming.well_formed(),
    ensures
        naming.claimed(local, name).well_formed(),
{
    let after = naming.claimed(local, name);
    assert forall|number: nat| 1 <= number < after.counter implies !(#[trigger] is_free(
        after.taken,
        "p"@,
        number,
    )) || !is_free(after.taken, "v"@, number) by {
        lemma_still_taken(naming.taken, name, "p"@ + crate::text::decimal(number));
        lemma_still_taken(naming.taken, name, "v"@ + crate::text::decimal(number));
        assert(!is_free(naming.taken, "p"@, number) || !is_free(naming.taken, "v"@, number));
    }
}

proof fn lemma_still_taken(taken: Seq<Seq<char>>, name: Seq<char>, held: Seq<char>)
    ensures
        taken.contains(held) ==> taken.push(name).contains(held),
        taken.push(name).contains(name),
{
    let after = taken.push(name);
    assert(after[taken.len() as int] == name);
    if taken.contains(held) {
        let i = choose|i: int| 0 <= i < taken.len() && taken[i] == held;
        assert(after[i] == held);
    }
}

/// The state of an executable namer.
struct Namer {
    rename: bool,
    counter: u128,
    taken: Vec<String>,
}

impl Namer {
    spec fn naming(&self, locals: &Locals) -> Naming {
        Naming {
            names: locals@,
            taken: crate::text::texts(self.taken@),
            counter: self.counter as nat,
        }
    }

    /// Whether this is `before` with more names taken.
    spec fn extends(&self, before: &Namer) -> bool {
        &&& self.rename == before.rename
        &&& before.taken@.len() <= self.taken@.len()
        &&& forall|i: int| 0 <= i < before.taken@.len() ==> self.taken@[i] == before.taken@[i]
    }

    fn numbered(base: &str, number: u128) -> (name: String)
        ensures
            name@ == base@ + crate::text::decimal(number as nat),
    {
        let mut name = owned(base);
        push_decimal(&mut name, number);
        name
    }

    /// The first number from `from` on that is free behind a base.
    fn find_free(&self, base: &str, from: u128) -> (number: u128)
        requires
            from <= usize::MAX + 1,
        ensures
            is_first_free(crate::text::texts(self.taken@), base@, from as nat, number as nat),
            number <= from + self.taken@.len(),
    {
        let ghost taken = crate::text::texts(self.taken@);
        let held: usize = self.taken.len();
        let mut number: u128 = from;
        loop
            invariant
                taken == crate::text::texts(self.taken@),
                held == taken.len(),
                from <= usize::MAX + 1,
                from <= number <= from + held,
                forall|other: nat|
                    from <= other < number ==> !#[trigger] is_free(taken, base@, other),
            decreases from + held - number,
        {
            let name = Self::numbered(base, number);
            if !is_among(&self.taken, name.as_str()) {
                assert(is_free(taken, base@, number as nat));
                return number;
            }
            proof {
                assert(!is_free(taken, base@, number as nat));
                lemma_taken_numbers(taken, base@, from as nat, (number + 1) as nat);
            }
            number += 1;
        }
    }

    /// A base as a name that is not taken.
    fn unique_name(&self, base: &str) -> (name: String)
        ensures
            name@ == unique(crate::text::texts(self.taken@), base@),
    {
        if is_among(&self.taken, base) {
            let number = self.find_free(base, 2);
            proof {
                lemma_first_free(crate::text::texts(self.taken@), base@, 2, number as nat);
            }
            Self::numbered(base, number)
        } else {
            owned(base)
        }
    }

    /// Gives a local a name that is then taken.
    fn claim(&mut self, locals: &mut Locals, local: RcLocal, name: String)
        requires
            old(self).naming(old(locals)).well_formed(),
        ensures
            final(self).naming(final(locals)) == old(self).naming(old(locals)).claimed(
                local,
                name@,
            ),
            final(self).naming(final(locals)).well_formed(),
            final(self).extends(old(self)),
    {
        let copy = name.clone();
        locals.give_name(local, copy);
        self.taken.push(name);
        proof {
            assert(crate::text::texts(self.taken@) =~= crate::text::texts(old(self).taken@).push(
                name@,
            ));
            lemma_claimed(old(self).naming(old(locals)), local, name@);
        }
    }

    fn claim_number(&mut self, locals: &mut Locals, local: RcLocal, parameter: bool)
        requires
            old(self).naming(old(locals)).well_formed(),
        ensures
            ({
                let before = old(self).naming(old(locals));
                let number = first_free(before.taken, prefix(parameter), before.counter);
                final(self).naming(final(locals)) == (Naming {
                    counter: number + 1,
                    ..before.claimed(local, prefix(parameter) + crate::text::decimal(number))
                })
            }),
            final(self).naming(final(locals)).well_formed(),
            final(self).extends(old(self)),
    {
        let ghost before = self.naming(locals);
        let held: usize = self.taken.len();
        proof {
            lemma_counter(before);
            assert(before.taken.len() == held);
        }
        let base = if parameter { "p" } else { "v" };
        let number = self.find_free(base, self.counter);
        let name = Self::numbered(base, number);
        let ghost given = name@;
        proof {
            lemma_first_free(before.taken, prefix(parameter), before.counter, number as nat);
        }
        self.claim(locals, local, name);
        self.counter = number + 1;
        proof {
            let after = self.naming(locals);
            assert forall|other: nat| 1 <= other < after.counter implies !(#[trigger] is_free(
                after.taken,
                "p"@,
                other,
            )) || !is_free(after.taken, "v"@, other) by {
                let held = prefix(parameter) + crate::text::decimal(other);
                lemma_still_taken(before.taken, given, held);
                if other >= before.counter {
                    if other < number {
                        assert(!is_free(before.taken, prefix(parameter), other));
                    }
                    assert(!is_free(after.taken, prefix(parameter), other));
                } else {
                    lemma_still_taken(before.taken, given, "p"@ + crate::text::decimal(other));
                    lemma_still_taken(before.taken, given, "v"@ + crate::text::decimal(other));
                    assert(!is_free(before.taken, "p"@, other) || !is_free(
                        before.taken,
                        "v"@,
                        other,
                    ));
                }
            }
        }
    }

    /// The name that a local keeps.
    fn find_kept(rename: bool, locals: &Locals, local: RcLocal) -> (name: Option<String>)
        ensures
            crate::ast::local::text_of(name) == kept(rename, Locals::name_in(locals@, local)),
    {
        if rename {
            return None;
        }
        match locals.name(local) {
            Some(name) => if is_valid_identifier(name.as_str().as_bytes()) {
                Some(name)
            } else {
                None
            },
            None => None,
        }
    }

    /// What a local wants to be called after, where it is not by a number or
    /// discarded.
    fn find_base(&self, locals: &Locals, local: RcLocal, evidence: &Evidence) -> (base: Option<
        String,
    >)
        ensures
            match base {
                Some(base) => wish(self.rename, Locals::name_in(locals@, local), evidence@)
                    == Wish::Based(base@),
                None => !(wish(self.rename, Locals::name_in(locals@, local), evidence@) is Based),
            },
    {
        if let Some(name) = Self::find_kept(self.rename, locals, local) {
            return Some(name);
        }
        if let Some(name) = &evidence.defined {
            return Some(name.clone());
        }
        if let Agreement::Single(name) = &evidence.fields {
            return Some(name.clone());
        }
        if let Some(role) = evidence.find_role() {
            return Some(owned(role.label()));
        }
        if !evidence.read {
            return None;
        }
        match evidence.find_final_shape() {
            Some(shape) => Some(owned(shape.label())),
            None => None,
        }
    }

    fn assign_name(
        &mut self,
        locals: &mut Locals,
        local: RcLocal,
        parameter: bool,
        evidence: &Evidence,
    )
        requires
            old(self).naming(old(locals)).well_formed(),
        ensures
            final(self).naming(final(locals)) == old(self).naming(old(locals)).assigned(
                old(self).rename,
                local,
                parameter,
                evidence@,
            ),
            final(self).naming(final(locals)).well_formed(),
            final(self).extends(old(self)),
    {
        match self.find_base(locals, local, evidence) {
            Some(base) => {
                let name = self.unique_name(base.as_str());
                self.claim(locals, local, name);
            },
            None => {
                if !evidence.read {
                    locals.give_name(local, owned("_"));
                } else {
                    self.claim_number(locals, local, parameter);
                }
            },
        }
    }

    fn assign_found(
        &mut self,
        locals: &mut Locals,
        local: RcLocal,
        parameter: bool,
        evidence: &FxHashMap<u64, Evidence>,
    )
        requires
            old(self).naming(old(locals)).well_formed(),
        ensures
            final(self).naming(final(locals)) == old(self).naming(old(locals)).assigned(
                old(self).rename,
                local,
                parameter,
                name_evidence::evidence_in(evidence@, local),
            ),
            final(self).naming(final(locals)).well_formed(),
            final(self).extends(old(self)),
    {
        match find_entry(evidence, local.id) {
            Some(evidence) => self.assign_name(locals, local, parameter, evidence),
            None => {
                let none = Evidence::default();
                self.assign_name(locals, local, parameter, &none);
            },
        }
    }

    fn name_parameters(
        &mut self,
        locals: &mut Locals,
        parameters: &Vec<RcLocal>,
        evidence: &FxHashMap<u64, Evidence>,
        Ghost(block): Ghost<Seq<StatementView>>,
    )
        requires
            old(self).naming(old(locals)).well_formed(),
            forall|local: RcLocal| #[trigger]
                name_evidence::evidence_in(evidence@, local) == name_evidence::block_evidence(
                    block,
                    local_grouping::numbers(parameters@),
                    local,
                ),
        ensures
            final(self).naming(final(locals)) == old(self).naming(old(locals)).parameters_named(
                old(self).rename,
                parameters@,
                0,
                block,
            ),
            final(self).naming(final(locals)).well_formed(),
            final(self).extends(old(self)),
    {
        let ghost whole = self.naming(locals).parameters_named(
            self.rename,
            parameters@,
            0,
            block,
        );
        let mut index: usize = 0;
        while index < parameters.len()
            invariant
                index <= parameters@.len(),
                self.naming(locals).well_formed(),
                self.extends(old(self)),
                forall|local: RcLocal| #[trigger]
                    name_evidence::evidence_in(evidence@, local) == name_evidence::block_evidence(
                        block,
                        local_grouping::numbers(parameters@),
                        local,
                    ),
                whole == self.naming(locals).parameters_named(
                    self.rename,
                    parameters@,
                    index as int,
                    block,
                ),
            decreases parameters.len() - index,
        {
            self.assign_found(locals, parameters[index], true, evidence);
            index += 1;
        }
    }

    fn name_declared(
        &mut self,
        locals: &mut Locals,
        declared: &Vec<u64>,
        parameters: &FxHashSet<u64>,
        evidence: &FxHashMap<u64, Evidence>,
        Ghost(list): Ghost<Seq<RcLocal>>,
        Ghost(block): Ghost<Seq<StatementView>>,
    )
        requires
            old(self).naming(old(locals)).well_formed(),
            parameters@ == local_grouping::numbers(list),
            forall|local: RcLocal| #[trigger]
                name_evidence::evidence_in(evidence@, local) == name_evidence::block_evidence(
                    block,
                    parameters@,
                    local,
                ),
        ensures
            final(self).naming(final(locals)) == old(self).naming(old(locals)).locals_named(
                old(self).rename,
                declared@,
                0,
                list,
                block,
            ),
            final(self).naming(final(locals)).well_formed(),
            final(self).extends(old(self)),
    {
        let ghost whole = self.naming(locals).locals_named(
            self.rename,
            declared@,
            0,
            list,
            block,
        );
        let mut index: usize = 0;
        while index < declared.len()
            invariant
                index <= declared@.len(),
                self.naming(locals).well_formed(),
                self.extends(old(self)),
                parameters@ == local_grouping::numbers(list),
                forall|local: RcLocal| #[trigger]
                    name_evidence::evidence_in(evidence@, local) == name_evidence::block_evidence(
                        block,
                        parameters@,
                        local,
                    ),
                whole == self.naming(locals).locals_named(
                    self.rename,
                    declared@,
                    index as int,
                    list,
                    block,
                ),
            decreases declared.len() - index,
        {
            if !has_member(parameters, declared[index]) {
                self.assign_found(locals, RcLocal { id: declared[index] }, false, evidence);
            }
            index += 1;
        }
    }

    /// Names what a function declares.
    fn name_own(&mut self, locals: &mut Locals, block: &Block, parameters: &Vec<RcLocal>)
        requires
            old(self).naming(old(locals)).well_formed(),
        ensures
            final(self).naming(final(locals)) == old(self).naming(old(locals)).declared_named(
                old(self).rename,
                parameters@,
                block@,
            ),
            final(self).naming(final(locals)).well_formed(),
            final(self).extends(old(self)),
    {
        let mut declarations = empty_ordered_set();
        insert_locals(&mut declarations, parameters);
        let mut listed: Vec<RcLocal> = Vec::new();
        add_declarations(block, &mut listed);
        proof {
            assert(listed@ =~= StatementView::declared_from(block@, 0));
        }
        insert_locals(&mut declarations, &listed);
        let declared = list_members(&declarations);
        let mut ids = empty_set();
        add_all(parameters, &mut ids);
        proof {
            assert(ids@ =~= local_grouping::numbers(parameters@));
        }
        let mut clues: Vec<(RcLocal, Clue)> = Vec::new();
        collect_evidence(block, &ids, false, &mut clues);
        proof {
            assert(Clue::views(clues@) =~= StatementView::clues_from(block@, 0, ids@, false));
        }
        let evidence = weigh_clues(clues);
        proof {
            assert forall|local: RcLocal| #[trigger]
                name_evidence::evidence_in(evidence@, local) == name_evidence::block_evidence(
                    block@,
                    ids@,
                    local,
                ) by {
            }
        }
        self.name_parameters(locals, parameters, &evidence, Ghost(block@));
        self.name_declared(
            locals,
            &declared,
            &ids,
            &evidence,
            Ghost(parameters@),
            Ghost(block@),
        );
    }

    /// Names what a function declares, and then the functions in it.
    fn name_scope(&mut self, locals: &mut Locals, block: Block, parameters: &Vec<RcLocal>) -> (named:
        Block)
        requires
            old(self).naming(old(locals)).well_formed(),
        ensures
            (final(self).naming(final(locals)), named@) == StatementView::scope_named(
                block@,
                parameters@,
                old(self).naming(old(locals)),
                old(self).rename,
            ),
            final(self).naming(final(locals)).well_formed(),
            final(self).extends(old(self)),
        decreases StatementView::sizes_from(block@, 0), 2int, 0int,
    {
        self.name_own(locals, &block, parameters);
        self.name_child_functions(locals, block)
    }

    fn name_child_functions(&mut self, locals: &mut Locals, block: Block) -> (named: Block)
        requires
            old(self).naming(old(locals)).well_formed(),
        ensures
            (final(self).naming(final(locals)), named@) == StatementView::named_from(
                block@,
                0,
                old(self).naming(old(locals)),
                old(self).rename,
            ),
            final(self).naming(final(locals)).well_formed(),
            final(self).extends(old(self)),
        decreases StatementView::sizes_from(block@, 0), 1int, 0int,
    {
        let ghost views = block@;
        let ghost whole = StatementView::named_from(views, 0, self.naming(locals), self.rename);
        let mut rest = block.0;
        let count: usize = rest.len();
        let mut named: Vec<Statement> = Vec::new();
        let mut index: usize = 0;
        proof {
            assert(Statement::views(named@) + whole.1 =~= whole.1);
        }
        while index < count
            invariant
                index <= count == views.len(),
                rest@.len() == count - index,
                Statement::views(rest@) =~= views.skip(index as int),
                views == block@,
                self.naming(locals).well_formed(),
                self.extends(old(self)),
                ({
                    let (last, remaining) = StatementView::named_from(
                        views,
                        index as int,
                        self.naming(locals),
                        self.rename,
                    );
                    whole == (last, Statement::views(named@) + remaining)
                }),
            decreases count - index,
        {
            let ghost before = Statement::views(rest@);
            let ghost held = Statement::views(named@);
            let ghost naming = self.naming(locals);
            let statement = rest.remove(0);
            proof {
                assert(before[0] == views[index as int]);
                assert(Statement::views(rest@) =~= before.skip(1));
                model::lemma_statement_sizes_member(views, 0, index as int);
            }
            let statement = self.name_statement(locals, statement);
            let ghost put = statement@;
            named.push(statement);
            proof {
                let (last, remaining) = StatementView::named_from(
                    views,
                    index as int,
                    naming,
                    self.rename,
                );
                let (_, fewer) = StatementView::named_from(
                    views,
                    index + 1,
                    self.naming(locals),
                    self.rename,
                );
                assert(remaining =~= seq![put] + fewer);
                assert(Statement::views(named@) + fewer =~= held + remaining);
            }
            index += 1;
        }
        let named = Block(named);
        proof {
            assert(named@ + Seq::<StatementView>::empty() =~= named@);
        }
        named
    }

    fn name_statement(&mut self, locals: &mut Locals, statement: Statement) -> (named: Statement)
        requires
            old(self).naming(old(locals)).well_formed(),
        ensures
            (final(self).naming(final(locals)), named@) == statement@.named(
                old(self).naming(old(locals)),
                old(self).rename,
            ),
            final(self).naming(final(locals)).well_formed(),
            final(self).extends(old(self)),
        decreases statement@.size(), 0int, 0int,
    {
        let ghost whole = statement@;
        let ghost start = self.naming(locals);
        let ghost rename = self.rename;
        proof {
            nodes::statement_node(statement);
            model::lemma_statement_parts(whole);
        }
        let bare = matches!(statement, Statement::Do(_));
        let (shell, roots, blocks) = statement.decompose();
        proof {
            lemma_named_count(whole.roots(), 0, start, rename);
        }
        let roots = self.name_values(locals, roots);
        let ghost given = RValue::views(roots@);
        let ghost next = self.naming(locals);
        let blocks = if bare {
            blocks
        } else {
            proof {
                lemma_named_block_count(whole.blocks(), 0, next, rename);
            }
            self.name_blocks(locals, blocks)
        };
        proof {
            assert(roots@.len() == given.len());
            assert(whole.takes(roots@.len() as int));
            assert(blocks@.len() == Block::views(blocks@).len());
            shape_laws::given_roots(whole, given);
            shape_laws::same_blocks(whole.with_roots(given));
        }
        shell.compose(roots, blocks)
    }

    fn name_blocks(&mut self, locals: &mut Locals, blocks: Vec<Block>) -> (named: Vec<Block>)
        requires
            old(self).naming(old(locals)).well_formed(),
        ensures
            (final(self).naming(final(locals)), Block::views(named@)) == StatementView::blocks_named(
                Block::views(blocks@),
                0,
                old(self).naming(old(locals)),
                old(self).rename,
            ),
            final(self).naming(final(locals)).well_formed(),
            final(self).extends(old(self)),
        decreases StatementView::block_sizes_from(Block::views(blocks@), 0), 3int, blocks@.len(),
    {
        let ghost views = Block::views(blocks@);
        let ghost whole = StatementView::blocks_named(views, 0, self.naming(locals), self.rename);
        let count: usize = blocks.len();
        let mut rest = blocks;
        let mut named: Vec<Block> = Vec::new();
        let mut index: usize = 0;
        proof {
            assert(Block::views(named@) + whole.1 =~= whole.1);
        }
        while index < count
            invariant
                index <= count == views.len(),
                rest@.len() == count - index,
                Block::views(rest@) =~= views.skip(index as int),
                views == Block::views(blocks@),
                self.naming(locals).well_formed(),
                self.extends(old(self)),
                ({
                    let (last, remaining) = StatementView::blocks_named(
                        views,
                        index as int,
                        self.naming(locals),
                        self.rename,
                    );
                    whole == (last, Block::views(named@) + remaining)
                }),
            decreases count - index,
        {
            let ghost before = Block::views(rest@);
            let ghost held = Block::views(named@);
            let ghost naming = self.naming(locals);
            let block = rest.remove(0);
            proof {
                assert(before[0] == views[index as int]);
                assert(Block::views(rest@) =~= before.skip(1));
                model::lemma_block_sizes_member(views, 0, index as int);
            }
            let block = self.name_child_functions(locals, block);
            let ghost put = block@;
            named.push(block);
            proof {
                let (last, remaining) = StatementView::blocks_named(
                    views,
                    index as int,
                    naming,
                    self.rename,
                );
                let (_, fewer) = StatementView::blocks_named(
                    views,
                    index + 1,
                    self.naming(locals),
                    self.rename,
                );
                assert(remaining =~= seq![put] + fewer);
                assert(Block::views(named@) + fewer =~= held + remaining);
            }
            index += 1;
        }
        proof {
            assert(Block::views(named@) + Seq::<Seq<StatementView>>::empty() =~= Block::views(
                named@,
            ));
        }
        named
    }

    fn name_values(&mut self, locals: &mut Locals, values: Vec<RValue>) -> (named: Vec<RValue>)
        requires
            old(self).naming(old(locals)).well_formed(),
        ensures
            (final(self).naming(final(locals)), RValue::views(named@)) == RValueView::named_from(
                RValue::views(values@),
                0,
                old(self).naming(old(locals)),
                old(self).rename,
            ),
            final(self).naming(final(locals)).well_formed(),
            final(self).extends(old(self)),
        decreases RValueView::sizes_from(RValue::views(values@), 0), 1int, 0int,
    {
        let ghost views = RValue::views(values@);
        let ghost whole = RValueView::named_from(views, 0, self.naming(locals), self.rename);
        let count: usize = values.len();
        let mut rest = values;
        let mut named: Vec<RValue> = Vec::new();
        let mut index: usize = 0;
        proof {
            assert(RValue::views(named@) + whole.1 =~= whole.1);
        }
        while index < count
            invariant
                index <= count == views.len(),
                rest@.len() == count - index,
                RValue::views(rest@) =~= views.skip(index as int),
                views == RValue::views(values@),
                self.naming(locals).well_formed(),
                self.extends(old(self)),
                ({
                    let (last, remaining) = RValueView::named_from(
                        views,
                        index as int,
                        self.naming(locals),
                        self.rename,
                    );
                    whole == (last, RValue::views(named@) + remaining)
                }),
            decreases count - index,
        {
            let ghost before = RValue::views(rest@);
            let ghost held = RValue::views(named@);
            let ghost naming = self.naming(locals);
            let value = rest.remove(0);
            proof {
                assert(before[0] == views[index as int]);
                assert(RValue::views(rest@) =~= before.skip(1));
                model::lemma_sizes_member(views, 0, index as int);
            }
            let value = self.name_value(locals, value);
            let ghost put = value@;
            named.push(value);
            proof {
                let (last, remaining) = RValueView::named_from(
                    views,
                    index as int,
                    naming,
                    self.rename,
                );
                let (_, fewer) = RValueView::named_from(
                    views,
                    index + 1,
                    self.naming(locals),
                    self.rename,
                );
                assert(remaining =~= seq![put] + fewer);
                assert(RValue::views(named@) + fewer =~= held + remaining);
            }
            index += 1;
        }
        proof {
            assert(RValue::views(named@) + Seq::<RValueView>::empty() =~= RValue::views(named@));
        }
        named
    }

    fn name_value(&mut self, locals: &mut Locals, value: RValue) -> (named: RValue)
        requires
            old(self).naming(old(locals)).well_formed(),
        ensures
            (final(self).naming(final(locals)), named@) == value@.named(
                old(self).naming(old(locals)),
                old(self).rename,
            ),
            final(self).naming(final(locals)).well_formed(),
            final(self).extends(old(self)),
        decreases value@.size(), 0int, 0int,
    {
        let ghost whole = value@;
        let ghost start = self.naming(locals);
        let ghost rename = self.rename;
        proof {
            nodes::rvalue_node(value);
            model::lemma_children_smaller(whole);
        }
        match value {
            RValue::Closure(closure) => {
                let Closure { function, upvalues } = closure;
                let Function { id, name, parameters, is_variadic, is_method, body } = *function;
                let taken = is_among(&self.taken, "self");
                let held: usize = self.taken.len();
                let counter = self.counter;
                self.take_upvalues(locals, &upvalues);
                self.counter = 1;
                let body = self.name_scope(locals, body, &parameters);
                self.taken.truncate(held);
                self.counter = counter;
                let named = RValue::Closure(
                    Closure {
                        function: Box::new(
                            Function {
                                id,
                                name,
                                parameters,
                                is_variadic,
                                is_method: is_method && !taken,
                                body,
                            },
                        ),
                        upvalues,
                    },
                );
                proof {
                    nodes::rvalue_node(named);
                    assert(self.taken@ =~= old(self).taken@);
                    let (after, inside) = whole.named(start, rename);
                    assert(named@ =~= inside);
                    assert(self.naming(locals) =~= after);
                }
                named
            },
            other => {
                let (shell, operands) = other.decompose();
                proof {
                    lemma_named_count(whole.children(), 0, start, rename);
                    assert forall|count: int| count == whole.children().len() implies shell@.takes(
                        count,
                    ) by {
                    }
                }
                let operands = self.name_values(locals, operands);
                let ghost given = RValue::views(operands@);
                proof {
                    assert(operands@.len() == given.len());
                    assert(whole.takes(operands@.len() as int));
                    assert(shell@.takes(operands@.len() as int));
                }
                let named = shell.compose(operands);
                proof {
                    assert(named@ == whole.with_children(given));
                }
                named
            },
        }
    }

    /// Takes the names of captured locals.
    fn take_upvalues(&mut self, locals: &Locals, upvalues: &Vec<Upvalue>)
        ensures
            crate::text::texts(final(self).taken@) == crate::text::texts(old(self).taken@)
                + upvalue_names(upvalues@, locals@),
            final(self).counter == old(self).counter,
            final(self).extends(old(self)),
    {
        let ghost start = crate::text::texts(self.taken@);
        let mut index: usize = 0;
        proof {
            assert(upvalues@.take(0) =~= Seq::empty());
            assert(start + upvalue_names(upvalues@.take(0), locals@) =~= start);
        }
        while index < upvalues.len()
            invariant
                index <= upvalues@.len(),
                self.counter == old(self).counter,
                self.extends(old(self)),
                crate::text::texts(self.taken@) =~= start + upvalue_names(
                    upvalues@.take(index as int),
                    locals@,
                ),
            decreases upvalues.len() - index,
        {
            let ghost less = upvalues@.take(index as int);
            let ghost more = upvalues@.take(index + 1);
            let ghost held = crate::text::texts(self.taken@);
            proof {
                assert(more.drop_last() =~= less);
                assert(more.last() == upvalues@[index as int]);
            }
            let local = match &upvalues[index] {
                Upvalue::Copy(local) => *local,
                Upvalue::Ref(local) => *local,
            };
            if let Some(name) = Self::find_kept(false, locals, local) {
                let ghost added = name@;
                self.taken.push(name);
                proof {
                    assert(crate::text::texts(self.taken@) =~= held.push(added));
                }
            }
            index += 1;
        }
        proof {
            assert(upvalues@.take(upvalues@.len() as int) =~= upvalues@);
        }
    }
}

proof fn lemma_named_count(values: Seq<RValueView>, from: int, naming: Naming, rename: bool)
    requires
        0 <= from <= values.len(),
    ensures
        RValueView::named_from(values, from, naming, rename).1.len() == values.len() - from,
    decreases values.len() - from,
{
    if from < values.len() {
        let (next, first) = values[from].named(naming, rename);
        lemma_named_count(values, from + 1, next, rename);
    }
}

proof fn lemma_named_block_count(
    blocks: Seq<Seq<StatementView>>,
    from: int,
    naming: Naming,
    rename: bool,
)
    requires
        0 <= from <= blocks.len(),
    ensures
        StatementView::blocks_named(blocks, from, naming, rename).1.len() == blocks.len() - from,
    decreases blocks.len() - from,
{
    if from < blocks.len() {
        let (next, first) = StatementView::named_from(blocks[from], 0, naming, rename);
        lemma_named_block_count(blocks, from + 1, next, rename);
    }
}

/// Adds locals to an ordered set.
pub(crate) fn insert_locals(set: &mut OrderedSet, locals: &Vec<RcLocal>)
    ensures
        crate::collections::ordered_members(*final(set)) == all_with(
            crate::collections::ordered_members(*old(set)),
            locals@,
        ),
{
    let ghost start = crate::collections::ordered_members(*set);
    let mut index: usize = 0;
    while index < locals.len()
        invariant
            index <= locals@.len(),
            crate::collections::ordered_members(*set) == all_with(
                start,
                locals@.take(index as int),
            ),
        decreases locals.len() - index,
    {
        proof {
            assert(locals@.take(index + 1).drop_last() =~= locals@.take(index as int));
        }
        insert_ordered(set, locals[index].id);
        index += 1;
    }
    proof {
        assert(locals@.take(locals@.len() as int) =~= locals@);
    }
}

pub(crate) fn add_targets(targets: &Vec<LValue>, declared: &mut Vec<RcLocal>)
    ensures
        final(declared)@ == old(declared)@ + LValueView::locals_from(LValue::views(targets@), 0),
{
    let ghost views = LValue::views(targets@);
    let ghost whole = declared@ + LValueView::locals_from(views, 0);
    let mut index: usize = 0;
    while index < targets.len()
        invariant
            index <= targets@.len() == views.len(),
            views == LValue::views(targets@),
            declared@ + LValueView::locals_from(views, index as int) =~= whole,
        decreases targets.len() - index,
    {
        proof {
            assert(views[index as int] == targets@[index as int]@);
        }
        if let Some(local) = targets[index].as_local() {
            declared.push(local);
        }
        index += 1;
    }
}

fn add_head_declarations(statement: &Statement, declared: &mut Vec<RcLocal>)
    ensures
        final(declared)@ == old(declared)@ + statement@.head_declared(),
{
    proof {
        nodes::statement_node(*statement);
        assert(declared@ + Seq::<RcLocal>::empty() =~= declared@);
    }
    match statement {
        Statement::Assign(assign) => {
            proof {
                nodes::assign_node(*assign);
            }
            if assign.prefix {
                add_targets(&assign.left, declared);
            }
        },
        Statement::Class(class) => {
            declared.push(class.target);
        },
        Statement::NumericFor(numeric_for) => {
            declared.push(numeric_for.counter);
        },
        Statement::GenericFor(generic_for) => {
            let locals = &generic_for.res_locals;
            let mut index: usize = 0;
            while index < locals.len()
                invariant
                    index <= locals@.len(),
                    declared@ =~= old(declared)@ + locals@.take(index as int),
                decreases locals.len() - index,
            {
                declared.push(locals[index]);
                index += 1;
            }
            proof {
                assert(locals@.take(locals@.len() as int) =~= locals@);
            }
        },
        _ => {},
    }
    proof {
        assert(declared@ =~= old(declared)@ + statement@.head_declared());
    }
}

fn add_statement_declarations(statement: &Statement, declared: &mut Vec<RcLocal>)
    ensures
        final(declared)@ == old(declared)@ + statement@.declared(),
    decreases statement@.size(), 0int, 0int,
{
    let ghost whole = statement@;
    let ghost start = declared@;
    proof {
        nodes::statement_node(*statement);
        model::lemma_statement_parts(whole);
    }
    if matches!(statement, Statement::Do(_)) {
        proof {
            assert(start + Seq::<RcLocal>::empty() =~= start);
        }
        return;
    }
    add_head_declarations(statement, declared);
    let blocks = statement.blocks();
    let ghost views = Block::borrowed(blocks@);
    let mut index: usize = 0;
    while index < blocks.len()
        invariant
            index <= blocks@.len() == views.len(),
            views == Block::borrowed(blocks@),
            whole == statement@,
            StatementView::block_sizes_from(views, 0) < whole.size(),
            declared@ + StatementView::block_declared(views, index as int) =~= start
                + whole.declared(),
        decreases blocks.len() - index,
    {
        proof {
            model::lemma_block_sizes_member(views, 0, index as int);
        }
        add_declarations(blocks[index], declared);
        index += 1;
    }
}

fn add_declarations(block: &Block, declared: &mut Vec<RcLocal>)
    ensures
        final(declared)@ == old(declared)@ + StatementView::declared_from(block@, 0),
    decreases StatementView::sizes_from(block@, 0), 1int, 0int,
{
    let ghost views = block@;
    let ghost whole = declared@ + StatementView::declared_from(views, 0);
    let mut index: usize = 0;
    while index < block.0.len()
        invariant
            index <= block.0@.len() == views.len(),
            views == block@,
            declared@ + StatementView::declared_from(views, index as int) =~= whole,
        decreases block.0.len() - index,
    {
        proof {
            model::lemma_statement_sizes_member(views, 0, index as int);
            assert(views[index as int] == block.0@[index as int]@);
        }
        add_statement_declarations(&block.0[index], declared);
        index += 1;
    }
}

/// Names the locals of a tree. With `rename`, names that locals have already
/// are not kept.
pub fn name_locals(block: Block, rename: bool, locals: &mut Locals) -> (named: Block)
    ensures
        ({
            let (naming, block) = StatementView::scope_named(
                block@,
                Seq::empty(),
                Naming { names: old(locals)@, taken: Seq::empty(), counter: 1 },
                rename,
            );
            final(locals)@ == naming.names && named@ == block
        }),
{
    let mut namer = Namer { rename, counter: 1, taken: Vec::new() };
    let parameters: Vec<RcLocal> = Vec::new();
    proof {
        assert(namer.naming(locals) =~= (Naming {
            names: locals@,
            taken: Seq::empty(),
            counter: 1,
        }));
        assert(parameters@ =~= Seq::empty());
    }
    namer.name_scope(locals, block, &parameters)
}

} // verus!
