//! Where the values of locals come from.

use vstd::prelude::*;

use rustc_hash::FxHashMap;

use crate::ast::local::RcLocal;
use crate::cfg::keys;
use crate::cfg::keys::{comes_before, push_bytes, push_number, push_pair, push_text};
use crate::collections::{empty_map, find_entry, insert_entry, remove_entry};
use crate::text::{copy_bytes, same_bytes, same_text};

verus! {

/// What a local of the function under analysis stands for.
#[derive(Debug, PartialEq, Eq, PartialOrd, Ord, Hash)]
pub enum BindingIdentity {
    Local { function_id: usize, register: usize, lifetime: Option<(usize, usize)> },
    SyntheticLocal { function_id: usize, sequence: usize },
    Parameter { function_id: usize, register: usize },
    Upvalue { function_id: usize, index: usize },
    Global(Vec<u8>),
    Import(Vec<u8>),
    Member(Vec<u8>),
}

/// The model of a `BindingIdentity`.
#[verifier::ext_equal]
pub enum BindingView {
    Local { function_id: usize, register: usize, lifetime: Option<(usize, usize)> },
    SyntheticLocal { function_id: usize, sequence: usize },
    Parameter { function_id: usize, register: usize },
    Upvalue { function_id: usize, index: usize },
    Global(Seq<u8>),
    Import(Seq<u8>),
    Member(Seq<u8>),
}

impl BindingView {
    /// The key by which bindings are in order: by kind, then by field.
    pub open spec fn key(self) -> Seq<u64> {
        match self {
            BindingView::Local { function_id, register, lifetime } => seq![
                0,
                function_id as u64,
                register as u64,
            ] + keys::pair_key(lifetime),
            BindingView::SyntheticLocal { function_id, sequence } => seq![
                1,
                function_id as u64,
                sequence as u64,
            ],
            BindingView::Parameter { function_id, register } => seq![
                2,
                function_id as u64,
                register as u64,
            ],
            BindingView::Upvalue { function_id, index } => seq![
                3,
                function_id as u64,
                index as u64,
            ],
            BindingView::Global(name) => seq![4u64] + keys::bytes_key(name),
            BindingView::Import(name) => seq![5u64] + keys::bytes_key(name),
            BindingView::Member(name) => seq![6u64] + keys::bytes_key(name),
        }
    }

    /// Different bindings have different keys.
    pub proof fn keys_tell_apart(left: BindingView, right: BindingView)
        ensures
            left.key() == right.key() ==> left == right,
    {
        if left.key() == right.key() {
            let one = left.key();
            let other = right.key();
            assert(one[0] == other[0]);
            let none = Seq::<u64>::empty();
            match (left, right) {
                (
                    BindingView::Local { lifetime: l, .. },
                    BindingView::Local { lifetime: m, .. },
                ) => {
                    assert(one[1] == other[1] && one[2] == other[2]);
                    assert(one.skip(3) =~= keys::pair_key(l) + none);
                    assert(other.skip(3) =~= keys::pair_key(m) + none);
                    keys::lemma_pair_parted(l, m, none, none);
                },
                (BindingView::SyntheticLocal { .. }, BindingView::SyntheticLocal { .. }) => {
                    assert(one[1] == other[1] && one[2] == other[2]);
                },
                (BindingView::Parameter { .. }, BindingView::Parameter { .. }) => {
                    assert(one[1] == other[1] && one[2] == other[2]);
                },
                (BindingView::Upvalue { .. }, BindingView::Upvalue { .. }) => {
                    assert(one[1] == other[1] && one[2] == other[2]);
                },
                (BindingView::Global(a), BindingView::Global(b)) => {
                    assert(one.skip(1) =~= keys::bytes_key(a) + none);
                    assert(other.skip(1) =~= keys::bytes_key(b) + none);
                    keys::lemma_bytes_parted(a, b, none, none);
                },
                (BindingView::Import(a), BindingView::Import(b)) => {
                    assert(one.skip(1) =~= keys::bytes_key(a) + none);
                    assert(other.skip(1) =~= keys::bytes_key(b) + none);
                    keys::lemma_bytes_parted(a, b, none, none);
                },
                (BindingView::Member(a), BindingView::Member(b)) => {
                    assert(one.skip(1) =~= keys::bytes_key(a) + none);
                    assert(other.skip(1) =~= keys::bytes_key(b) + none);
                    keys::lemma_bytes_parted(a, b, none, none);
                },
                _ => {},
            }
        }
    }
}

impl BindingIdentity {
    pub open spec fn view(&self) -> BindingView {
        match self {
            BindingIdentity::Local { function_id, register, lifetime } => BindingView::Local {
                function_id: *function_id,
                register: *register,
                lifetime: *lifetime,
            },
            BindingIdentity::SyntheticLocal { function_id, sequence } =>
                BindingView::SyntheticLocal { function_id: *function_id, sequence: *sequence },
            BindingIdentity::Parameter { function_id, register } => BindingView::Parameter {
                function_id: *function_id,
                register: *register,
            },
            BindingIdentity::Upvalue { function_id, index } => BindingView::Upvalue {
                function_id: *function_id,
                index: *index,
            },
            BindingIdentity::Global(name) => BindingView::Global(name@),
            BindingIdentity::Import(name) => BindingView::Import(name@),
            BindingIdentity::Member(name) => BindingView::Member(name@),
        }
    }

    pub fn local(function_id: usize, register: usize) -> (binding: Self)
        ensures
            binding@ == (BindingView::Local { function_id, register, lifetime: None }),
    {
        BindingIdentity::Local { function_id, register, lifetime: None }
    }

    pub fn parameter(function_id: usize, register: usize) -> (binding: Self)
        ensures
            binding@ == (BindingView::Parameter { function_id, register }),
    {
        BindingIdentity::Parameter { function_id, register }
    }

    /// The key by which bindings are in order.
    fn key(&self) -> (key: Vec<u64>)
        ensures
            key@ == self@.key(),
    {
        let mut key: Vec<u64> = Vec::new();
        match self {
            BindingIdentity::Local { function_id, register, lifetime } => {
                key.push(0);
                key.push(*function_id as u64);
                key.push(*register as u64);
                push_pair(&mut key, *lifetime);
            },
            BindingIdentity::SyntheticLocal { function_id, sequence } => {
                key.push(1);
                key.push(*function_id as u64);
                key.push(*sequence as u64);
            },
            BindingIdentity::Parameter { function_id, register } => {
                key.push(2);
                key.push(*function_id as u64);
                key.push(*register as u64);
            },
            BindingIdentity::Upvalue { function_id, index } => {
                key.push(3);
                key.push(*function_id as u64);
                key.push(*index as u64);
            },
            BindingIdentity::Global(name) => {
                key.push(4);
                push_bytes(&mut key, name);
            },
            BindingIdentity::Import(name) => {
                key.push(5);
                push_bytes(&mut key, name);
            },
            BindingIdentity::Member(name) => {
                key.push(6);
                push_bytes(&mut key, name);
            },
        }
        proof {
            assert(key@ =~= self@.key());
        }
        key
    }

    /// Whether two bindings are the same.
    pub fn same(&self, other: &BindingIdentity) -> (result: bool)
        ensures
            result == (self@ == other@),
    {
        match (self, other) {
            (
                BindingIdentity::Local { function_id: f, register: r, lifetime: l },
                BindingIdentity::Local { function_id: g, register: s, lifetime: m },
            ) => *f == *g && *r == *s && same_lifetime(*l, *m),
            (
                BindingIdentity::SyntheticLocal { function_id: f, sequence: s },
                BindingIdentity::SyntheticLocal { function_id: g, sequence: t },
            ) => *f == *g && *s == *t,
            (
                BindingIdentity::Parameter { function_id: f, register: r },
                BindingIdentity::Parameter { function_id: g, register: s },
            ) => *f == *g && *r == *s,
            (
                BindingIdentity::Upvalue { function_id: f, index: i },
                BindingIdentity::Upvalue { function_id: g, index: j },
            ) => *f == *g && *i == *j,
            (BindingIdentity::Global(left), BindingIdentity::Global(right)) => same_bytes(
                left.as_slice(),
                right.as_slice(),
            ),
            (BindingIdentity::Import(left), BindingIdentity::Import(right)) => same_bytes(
                left.as_slice(),
                right.as_slice(),
            ),
            (BindingIdentity::Member(left), BindingIdentity::Member(right)) => same_bytes(
                left.as_slice(),
                right.as_slice(),
            ),
            _ => false,
        }
    }
}

fn same_lifetime(left: Option<(usize, usize)>, right: Option<(usize, usize)>) -> (result: bool)
    ensures
        result == (left == right),
{
    match (left, right) {
        (Some(a), Some(b)) => a.0 == b.0 && a.1 == b.1,
        (None, None) => true,
        _ => false,
    }
}

impl Clone for BindingIdentity {
    fn clone(&self) -> (copy: Self)
        ensures
            copy@ == self@,
    {
        match self {
            BindingIdentity::Local { function_id, register, lifetime } => BindingIdentity::Local {
                function_id: *function_id,
                register: *register,
                lifetime: *lifetime,
            },
            BindingIdentity::SyntheticLocal { function_id, sequence } =>
                BindingIdentity::SyntheticLocal { function_id: *function_id, sequence: *sequence },
            BindingIdentity::Parameter { function_id, register } => BindingIdentity::Parameter {
                function_id: *function_id,
                register: *register,
            },
            BindingIdentity::Upvalue { function_id, index } => BindingIdentity::Upvalue {
                function_id: *function_id,
                index: *index,
            },
            BindingIdentity::Global(name) => BindingIdentity::Global(copy_bytes(name.as_slice())),
            BindingIdentity::Import(name) => BindingIdentity::Import(copy_bytes(name.as_slice())),
            BindingIdentity::Member(name) => BindingIdentity::Member(copy_bytes(name.as_slice())),
        }
    }
}

/// The stretch of instructions in which a register carries a source name.
#[derive(Debug, PartialEq, Eq, PartialOrd, Ord, Hash)]
pub struct DebugLifetime {
    pub name: Vec<u8>,
    pub start_instruction: usize,
    pub end_instruction: usize,
}

/// The model of a `DebugLifetime`.
#[verifier::ext_equal]
pub struct LifetimeView {
    pub name: Seq<u8>,
    pub start: usize,
    pub end: usize,
}

impl LifetimeView {
    /// Whether the stretch covers an instruction; its end is not part of it.
    pub open spec fn covers(self, instruction: usize) -> bool {
        self.start <= instruction < self.end
    }

    /// Whether this stretch comes no later than another, by where they start
    /// and then by where they end.
    pub open spec fn no_later(self, other: LifetimeView) -> bool {
        self.start < other.start || (self.start == other.start && self.end <= other.end)
    }

    /// The place in an ordered list behind every stretch that comes no later.
    pub open spec fn place_from(list: Seq<LifetimeView>, new: LifetimeView, from: int) -> int
        decreases list.len() - from,
    {
        if 0 <= from < list.len() && list[from].no_later(new) {
            Self::place_from(list, new, from + 1)
        } else {
            from
        }
    }

    /// The stretches in order; those that agree in both ends stay in the order
    /// that they were given in.
    pub open spec fn sorted(list: Seq<LifetimeView>) -> Seq<LifetimeView>
        decreases list.len(),
    {
        if list.len() == 0 {
            list
        } else {
            let front = Self::sorted(list.drop_last());
            front.insert(Self::place_from(front, list.last(), 0), list.last())
        }
    }

    /// The only stretch that covers an instruction, where there is just one.
    pub open spec fn only_cover(list: Seq<LifetimeView>, instruction: usize) -> Option<
        LifetimeView,
    > {
        if exists|i: int| Self::sole_cover(list, instruction, i) {
            Some(list[choose|i: int| Self::sole_cover(list, instruction, i)])
        } else {
            None
        }
    }

    /// Whether the stretch at `i`, and no other, covers an instruction.
    pub open spec fn sole_cover(list: Seq<LifetimeView>, instruction: usize, i: int) -> bool {
        &&& 0 <= i < list.len()
        &&& list[i].covers(instruction)
        &&& forall|j: int|
            0 <= j < list.len() && j != i ==> !(#[trigger] list[j]).covers(instruction)
    }
}

impl DebugLifetime {
    pub open spec fn view(&self) -> LifetimeView {
        LifetimeView {
            name: self.name@,
            start: self.start_instruction,
            end: self.end_instruction,
        }
    }

    /// The models of a list of stretches.
    pub open spec fn views(list: Seq<DebugLifetime>) -> Seq<LifetimeView> {
        Seq::new(list.len(), |i: int| list[i]@)
    }

    pub fn new(name: Vec<u8>, start_instruction: usize, end_instruction: usize) -> (lifetime: Self)
        ensures
            lifetime@ == (LifetimeView {
                name: name@,
                start: start_instruction,
                end: end_instruction,
            }),
    {
        DebugLifetime { name, start_instruction, end_instruction }
    }

    pub fn contains(&self, instruction: usize) -> (result: bool)
        ensures
            result == self@.covers(instruction),
    {
        self.start_instruction <= instruction && instruction < self.end_instruction
    }

    fn no_later(&self, other: &DebugLifetime) -> (result: bool)
        ensures
            result == self@.no_later(other@),
    {
        self.start_instruction < other.start_instruction || (self.start_instruction
            == other.start_instruction && self.end_instruction <= other.end_instruction)
    }
}

impl Clone for DebugLifetime {
    fn clone(&self) -> (copy: Self)
        ensures
            copy@ == self@,
    {
        DebugLifetime {
            name: copy_bytes(self.name.as_slice()),
            start_instruction: self.start_instruction,
            end_instruction: self.end_instruction,
        }
    }
}

proof fn lemma_place(list: Seq<LifetimeView>, new: LifetimeView, from: int)
    requires
        0 <= from <= list.len(),
    ensures
        from <= LifetimeView::place_from(list, new, from) <= list.len(),
    decreases list.len() - from,
{
    if from < list.len() && list[from].no_later(new) {
        lemma_place(list, new, from + 1);
    }
}

proof fn lemma_place_bounds(list: Seq<LifetimeView>, new: LifetimeView, from: int)
    requires
        0 <= from <= list.len(),
    ensures
        forall|i: int|
            from <= i < LifetimeView::place_from(list, new, from) ==> (
            #[trigger] list[i]).no_later(new),
        LifetimeView::place_from(list, new, from) < list.len()
            ==> !list[LifetimeView::place_from(list, new, from)].no_later(new),
    decreases list.len() - from,
{
    if from < list.len() && list[from].no_later(new) {
        lemma_place_bounds(list, new, from + 1);
    }
}

/// Ordering stretches puts each before all that come later, and keeps the
/// stretches themselves.
pub proof fn sorting_orders(list: Seq<LifetimeView>)
    ensures
        LifetimeView::sorted(list).to_multiset() == list.to_multiset(),
        LifetimeView::sorted(list).len() == list.len(),
        forall|i: int, j: int|
            0 <= i <= j < list.len() ==> (#[trigger] LifetimeView::sorted(list)[i]).no_later(
                #[trigger] LifetimeView::sorted(list)[j],
            ),
    decreases list.len(),
{
    if list.len() > 0 {
        let front = LifetimeView::sorted(list.drop_last());
        let place = LifetimeView::place_from(front, list.last(), 0);
        sorting_orders(list.drop_last());
        lemma_place(front, list.last(), 0);
        lemma_place_bounds(front, list.last(), 0);
        let whole = LifetimeView::sorted(list);
        assert(whole =~= front.insert(place, list.last()));
        broadcast use vstd::seq_lib::group_to_multiset_ensures;

        assert(list =~= list.drop_last().push(list.last()));
        assert forall|i: int, j: int| 0 <= i <= j < list.len() implies (
        #[trigger] whole[i]).no_later(#[trigger] whole[j]) by {
            let a = if i < place {
                front[i]
            } else if i == place {
                list.last()
            } else {
                front[i - 1]
            };
            let b = if j < place {
                front[j]
            } else if j == place {
                list.last()
            } else {
                front[j - 1]
            };
            assert(whole[i] == a && whole[j] == b);
            if i < place && j > place {
                assert(front[i].no_later(front[j - 1]));
            } else if i == place && j > place {
                assert(front[place].no_later(front[j - 1]));
            } else if i > place {
                assert(front[i - 1].no_later(front[j - 1]));
            } else if j < place {
                assert(front[i].no_later(front[j]));
            }
        }
    }
}

#[derive(Debug, Clone, Copy, PartialEq, Eq, PartialOrd, Ord, Hash, Structural)]
pub struct CaptureOrigin {
    pub closure_function_id: usize,
    pub capture_index: usize,
}

/// The instruction that a definition or a use comes from.
#[derive(Debug, PartialEq, Eq, PartialOrd, Ord, Hash)]
pub struct SourceOrigin {
    pub function_id: usize,
    pub instruction: usize,
    pub source_line: Option<usize>,
    pub opcode: String,
    pub register_family: Option<usize>,
    pub debug_lifetime: Option<DebugLifetime>,
    pub capture: Option<CaptureOrigin>,
}

/// The model of a `SourceOrigin`.
#[verifier::ext_equal]
pub struct OriginView {
    pub function_id: usize,
    pub instruction: usize,
    pub source_line: Option<usize>,
    pub opcode: Seq<char>,
    pub register_family: Option<usize>,
    pub debug_lifetime: Option<LifetimeView>,
    pub capture: Option<CaptureOrigin>,
}

/// The model of a stretch that may be missing.
pub open spec fn lifetime_view(lifetime: Option<DebugLifetime>) -> Option<LifetimeView> {
    match lifetime {
        Some(lifetime) => Some(lifetime@),
        None => None,
    }
}

/// The key of a stretch that may be missing: missing ones come first.
pub open spec fn lifetime_key(lifetime: Option<LifetimeView>) -> Seq<u64> {
    match lifetime {
        Some(lifetime) => seq![1u64] + (keys::bytes_key(lifetime.name) + seq![
            lifetime.start as u64,
            lifetime.end as u64,
        ]),
        None => seq![0u64],
    }
}

/// The key of a capture that may be missing.
pub open spec fn capture_key(capture: Option<CaptureOrigin>) -> Seq<u64> {
    match capture {
        Some(capture) => keys::pair_key(
            Some((capture.closure_function_id, capture.capture_index)),
        ),
        None => keys::pair_key(None),
    }
}

impl OriginView {
    /// The key by which origins are in order: field by field.
    pub open spec fn key(self) -> Seq<u64> {
        seq![self.function_id as u64, self.instruction as u64] + (keys::number_key(
            self.source_line,
        ) + (keys::text_key(self.opcode) + (keys::number_key(self.register_family) + (lifetime_key(
            self.debug_lifetime,
        ) + capture_key(self.capture)))))
    }

    /// Different origins have different keys.
    pub proof fn keys_tell_apart(left: OriginView, right: OriginView)
        ensures
            left.key() == right.key() ==> left == right,
    {
        if left.key() == right.key() {
            let one = left.key();
            let other = right.key();
            assert(one[0] == other[0] && one[1] == other[1]);
            let a4 = lifetime_key(left.debug_lifetime) + capture_key(left.capture);
            let b4 = lifetime_key(right.debug_lifetime) + capture_key(right.capture);
            let a3 = keys::number_key(left.register_family) + a4;
            let b3 = keys::number_key(right.register_family) + b4;
            let a2 = keys::text_key(left.opcode) + a3;
            let b2 = keys::text_key(right.opcode) + b3;
            let a1 = keys::number_key(left.source_line) + a2;
            let b1 = keys::number_key(right.source_line) + b2;
            assert(one.skip(2) =~= a1);
            assert(other.skip(2) =~= b1);
            keys::lemma_number_parted(left.source_line, right.source_line, a2, b2);
            keys::lemma_text_parted(left.opcode, right.opcode, a3, b3);
            keys::lemma_number_parted(left.register_family, right.register_family, a4, b4);
            lemma_lifetime_parted(
                left.debug_lifetime,
                right.debug_lifetime,
                capture_key(left.capture),
                capture_key(right.capture),
            );
            let none = Seq::<u64>::empty();
            let held = |capture: Option<CaptureOrigin>|
                match capture {
                    Some(capture) => Some((capture.closure_function_id, capture.capture_index)),
                    None => None,
                };
            assert(capture_key(left.capture) + none =~= capture_key(left.capture));
            assert(capture_key(right.capture) + none =~= capture_key(right.capture));
            keys::lemma_pair_parted(held(left.capture), held(right.capture), none, none);
        }
    }
}

proof fn lemma_lifetime_parted(
    left: Option<LifetimeView>,
    right: Option<LifetimeView>,
    left_rest: Seq<u64>,
    right_rest: Seq<u64>,
)
    requires
        lifetime_key(left) + left_rest == lifetime_key(right) + right_rest,
    ensures
        left == right,
        left_rest == right_rest,
{
    let whole = lifetime_key(left) + left_rest;
    let other = lifetime_key(right) + right_rest;
    assert(whole[0] == lifetime_key(left)[0] && other[0] == lifetime_key(right)[0]);
    if left is Some {
        let a = left->0;
        let b = right->0;
        let a_rest = seq![a.start as u64, a.end as u64] + left_rest;
        let b_rest = seq![b.start as u64, b.end as u64] + right_rest;
        assert(whole.skip(1) =~= keys::bytes_key(a.name) + a_rest);
        assert(other.skip(1) =~= keys::bytes_key(b.name) + b_rest);
        keys::lemma_bytes_parted(a.name, b.name, a_rest, b_rest);
        assert(a_rest[0] == b_rest[0] && a_rest[1] == b_rest[1]);
        assert(left_rest =~= a_rest.skip(2));
        assert(right_rest =~= b_rest.skip(2));
    } else {
        assert(left_rest =~= whole.skip(1));
        assert(right_rest =~= other.skip(1));
    }
}

fn push_lifetime(key: &mut Vec<u64>, lifetime: &Option<DebugLifetime>)
    ensures
        final(key)@ == old(key)@ + lifetime_key(lifetime_view(*lifetime)),
{
    match lifetime {
        Some(lifetime) => {
            key.push(1);
            push_bytes(key, &lifetime.name);
            key.push(lifetime.start_instruction as u64);
            key.push(lifetime.end_instruction as u64);
        },
        None => {
            key.push(0);
        },
    }
    proof {
        assert(key@ =~= old(key)@ + lifetime_key(lifetime_view(*lifetime)));
    }
}

fn same_number(left: Option<usize>, right: Option<usize>) -> (result: bool)
    ensures
        result == (left == right),
{
    match (left, right) {
        (Some(a), Some(b)) => a == b,
        (None, None) => true,
        _ => false,
    }
}

impl SourceOrigin {
    pub open spec fn view(&self) -> OriginView {
        OriginView {
            function_id: self.function_id,
            instruction: self.instruction,
            source_line: self.source_line,
            opcode: self.opcode@,
            register_family: self.register_family,
            debug_lifetime: lifetime_view(self.debug_lifetime),
            capture: self.capture,
        }
    }

    pub fn new(
        function_id: usize,
        instruction: usize,
        source_line: Option<usize>,
        opcode: &str,
    ) -> (origin: Self)
        ensures
            origin@ == (OriginView {
                function_id,
                instruction,
                source_line,
                opcode: opcode@,
                register_family: None,
                debug_lifetime: None,
                capture: None,
            }),
    {
        let mut text = String::new();
        text.append(opcode);
        proof {
            assert(text@ =~= opcode@);
        }
        SourceOrigin {
            function_id,
            instruction,
            source_line,
            opcode: text,
            register_family: None,
            debug_lifetime: None,
            capture: None,
        }
    }

    /// The key by which origins are in order.
    fn key(&self) -> (key: Vec<u64>)
        ensures
            key@ == self@.key(),
    {
        let mut key: Vec<u64> = Vec::new();
        key.push(self.function_id as u64);
        key.push(self.instruction as u64);
        push_number(&mut key, self.source_line);
        push_text(&mut key, &self.opcode);
        push_number(&mut key, self.register_family);
        push_lifetime(&mut key, &self.debug_lifetime);
        match self.capture {
            Some(capture) => {
                push_pair(
                    &mut key,
                    Some((capture.closure_function_id, capture.capture_index)),
                );
            },
            None => {
                push_pair(&mut key, None);
            },
        }
        proof {
            assert(key@ =~= self@.key());
        }
        key
    }

    /// Whether two origins are the same.
    pub fn same(&self, other: &SourceOrigin) -> (result: bool)
        ensures
            result == (self@ == other@),
    {
        let lifetimes = match (&self.debug_lifetime, &other.debug_lifetime) {
            (Some(left), Some(right)) => same_bytes(left.name.as_slice(), right.name.as_slice())
                && left.start_instruction == right.start_instruction && left.end_instruction
                == right.end_instruction,
            (None, None) => true,
            _ => false,
        };
        let captures = match (self.capture, other.capture) {
            (Some(left), Some(right)) => left == right,
            (None, None) => true,
            _ => false,
        };
        lifetimes && captures && self.function_id == other.function_id && self.instruction
            == other.instruction && same_number(self.source_line, other.source_line) && same_text(
            &self.opcode,
            other.opcode.as_str(),
        ) && same_number(self.register_family, other.register_family)
    }
}

impl Clone for SourceOrigin {
    fn clone(&self) -> (copy: Self)
        ensures
            copy@ == self@,
    {
        SourceOrigin {
            function_id: self.function_id,
            instruction: self.instruction,
            source_line: self.source_line,
            opcode: self.opcode.clone(),
            register_family: self.register_family,
            debug_lifetime: match &self.debug_lifetime {
                Some(lifetime) => Some(lifetime.clone()),
                None => None,
            },
            capture: self.capture,
        }
    }
}

/// The register that a family of locals was lifted from, with the names that
/// it carried.
#[derive(Debug, PartialEq, Eq)]
pub struct RegisterFamily {
    pub function_id: usize,
    pub register: usize,
    pub binding: BindingIdentity,
    pub debug_lifetimes: Vec<DebugLifetime>,
}

/// The model of a `RegisterFamily`.
#[verifier::ext_equal]
pub struct FamilyView {
    pub function_id: usize,
    pub register: usize,
    pub binding: BindingView,
    pub lifetimes: Seq<LifetimeView>,
}

impl FamilyView {
    /// What the register stands for at an instruction: where just one name
    /// covers it, the stretch of that name tells the local apart.
    pub open spec fn binding_at(self, instruction: usize) -> BindingView {
        match (self.binding, LifetimeView::only_cover(self.lifetimes, instruction)) {
            (BindingView::Local { function_id, register, .. }, Some(lifetime)) =>
                BindingView::Local {
                function_id,
                register,
                lifetime: Some((lifetime.start, lifetime.end)),
            },
            _ => self.binding,
        }
    }

    /// The origin of a definition, with the register and the name it had.
    pub open spec fn definition_origin(self, origin: OriginView) -> OriginView {
        OriginView {
            register_family: Some(self.register),
            debug_lifetime: LifetimeView::only_cover(self.lifetimes, origin.instruction),
            ..origin
        }
    }
}

fn insert_lifetime(list: &mut Vec<DebugLifetime>, new: DebugLifetime)
    ensures
        DebugLifetime::views(final(list)@) == DebugLifetime::views(old(list)@).insert(
            LifetimeView::place_from(DebugLifetime::views(old(list)@), new@, 0),
            new@,
        ),
{
    let ghost views = DebugLifetime::views(list@);
    let mut place: usize = 0;
    while place < list.len() && list[place].no_later(&new)
        invariant
            place <= list.len(),
            views == DebugLifetime::views(list@),
            LifetimeView::place_from(views, new@, place as int) == LifetimeView::place_from(
                views,
                new@,
                0,
            ),
        decreases list.len() - place,
    {
        place += 1;
    }
    list.insert(place, new);
    proof {
        assert(DebugLifetime::views(list@) =~= views.insert(place as int, new@));
    }
}

impl RegisterFamily {
    pub open spec fn view(&self) -> FamilyView {
        FamilyView {
            function_id: self.function_id,
            register: self.register,
            binding: self.binding@,
            lifetimes: DebugLifetime::views(self.debug_lifetimes@),
        }
    }

    pub fn new(
        function_id: usize,
        register: usize,
        binding: BindingIdentity,
        debug_lifetimes: Vec<DebugLifetime>,
    ) -> (family: Self)
        ensures
            family@ == (FamilyView {
                function_id,
                register,
                binding: binding@,
                lifetimes: LifetimeView::sorted(DebugLifetime::views(debug_lifetimes@)),
            }),
    {
        let ghost views = DebugLifetime::views(debug_lifetimes@);
        let mut sorted: Vec<DebugLifetime> = Vec::new();
        let mut index: usize = 0;
        proof {
            assert(views.take(0) =~= Seq::empty());
            assert(DebugLifetime::views(sorted@) =~= Seq::empty());
        }
        while index < debug_lifetimes.len()
            invariant
                index <= debug_lifetimes.len(),
                views == DebugLifetime::views(debug_lifetimes@),
                DebugLifetime::views(sorted@) == LifetimeView::sorted(views.take(index as int)),
            decreases debug_lifetimes.len() - index,
        {
            insert_lifetime(&mut sorted, debug_lifetimes[index].clone());
            index += 1;
            proof {
                assert(views.take(index as int).drop_last() =~= views.take(index - 1));
            }
        }
        proof {
            assert(views.take(views.len() as int) =~= views);
        }
        RegisterFamily { function_id, register, binding, debug_lifetimes: sorted }
    }

    /// The only name stretch that covers an instruction, where there is just
    /// one.
    pub fn debug_lifetime_at(&self, instruction: usize) -> (lifetime: Option<&DebugLifetime>)
        ensures
            match lifetime {
                Some(lifetime) => LifetimeView::only_cover(self@.lifetimes, instruction) == Some(
                    lifetime@,
                ),
                None => LifetimeView::only_cover(self@.lifetimes, instruction) is None,
            },
    {
        let ghost views = self@.lifetimes;
        let mut found: Option<usize> = None;
        let mut index: usize = 0;
        while index < self.debug_lifetimes.len()
            invariant
                index <= self.debug_lifetimes.len(),
                views == DebugLifetime::views(self.debug_lifetimes@),
                views == self@.lifetimes,
                match found {
                    Some(at) => at < index && views[at as int].covers(instruction) && forall|j: int|
                        0 <= j < index && j != at ==> !(#[trigger] views[j]).covers(instruction),
                    None => forall|j: int|
                        0 <= j < index ==> !(#[trigger] views[j]).covers(instruction),
                },
            decreases self.debug_lifetimes.len() - index,
        {
            if self.debug_lifetimes[index].contains(instruction) {
                if found.is_some() {
                    proof {
                        let at = found->0 as int;
                        assert forall|i: int| !LifetimeView::sole_cover(views, instruction, i) by {
                            assert(views[at].covers(instruction));
                            assert(views[index as int].covers(instruction));
                        }
                    }
                    return None;
                }
                found = Some(index);
            }
            index += 1;
        }
        match found {
            Some(at) => {
                proof {
                    assert(LifetimeView::sole_cover(views, instruction, at as int));
                    let chosen = choose|i: int| LifetimeView::sole_cover(views, instruction, i);
                    assert(chosen == at);
                }
                Some(&self.debug_lifetimes[at])
            },
            None => None,
        }
    }

    pub fn debug_name_at(&self, instruction: usize) -> (name: Option<&[u8]>)
        ensures
            match name {
                Some(name) => LifetimeView::only_cover(self@.lifetimes, instruction) matches Some(
                    lifetime,
                ) && lifetime.name == name@,
                None => LifetimeView::only_cover(self@.lifetimes, instruction) is None,
            },
    {
        match self.debug_lifetime_at(instruction) {
            Some(lifetime) => Some(lifetime.name.as_slice()),
            None => None,
        }
    }

    pub fn binding_at(&self, instruction: usize) -> (binding: BindingIdentity)
        ensures
            binding@ == self@.binding_at(instruction),
    {
        match (&self.binding, self.debug_lifetime_at(instruction)) {
            (BindingIdentity::Local { function_id, register, .. }, Some(lifetime)) =>
                BindingIdentity::Local {
                function_id: *function_id,
                register: *register,
                lifetime: Some((lifetime.start_instruction, lifetime.end_instruction)),
            },
            _ => self.binding.clone(),
        }
    }

    pub fn definition_origin(&self, origin: SourceOrigin) -> (defined: SourceOrigin)
        ensures
            defined@ == self@.definition_origin(origin@),
    {
        let debug_lifetime = match self.debug_lifetime_at(origin.instruction) {
            Some(lifetime) => Some(lifetime.clone()),
            None => None,
        };
        SourceOrigin { register_family: Some(self.register), debug_lifetime, ..origin }
    }
}

impl Clone for RegisterFamily {
    fn clone(&self) -> (copy: Self)
        ensures
            copy@ == self@,
    {
        let ghost views = DebugLifetime::views(self.debug_lifetimes@);
        let mut debug_lifetimes: Vec<DebugLifetime> = Vec::new();
        let mut index: usize = 0;
        while index < self.debug_lifetimes.len()
            invariant
                index <= self.debug_lifetimes.len(),
                views == DebugLifetime::views(self.debug_lifetimes@),
                DebugLifetime::views(debug_lifetimes@) =~= views.take(index as int),
            decreases self.debug_lifetimes.len() - index,
        {
            let ghost before = debug_lifetimes@;
            debug_lifetimes.push(self.debug_lifetimes[index].clone());
            index += 1;
            proof {
                assert(DebugLifetime::views(debug_lifetimes@) =~= DebugLifetime::views(before).push(
                    views[index - 1],
                ));
            }
        }
        proof {
            assert(views.take(views.len() as int) =~= views);
        }
        RegisterFamily {
            function_id: self.function_id,
            register: self.register,
            binding: self.binding.clone(),
            debug_lifetimes,
        }
    }
}

/// A set of origins.
#[derive(Debug)]
pub struct OriginSet {
    origins: Vec<SourceOrigin>,
}

impl OriginSet {
    /// The members, in ascending order.
    pub closed spec fn listed(&self) -> Seq<OriginView> {
        Seq::new(self.origins@.len(), |i: int| self.origins@[i]@)
    }

    pub open spec fn view(&self) -> Set<OriginView> {
        self.listed().to_set()
    }

    /// The keys of the members.
    pub open spec fn keys(&self) -> Seq<Seq<u64>> {
        self.listed().map_values(|member: OriginView| member.key())
    }

    /// The members stand in ascending order, none twice.
    pub open spec fn well_formed(&self) -> bool {
        keys::is_ascending(self.keys())
    }

    proof fn lemma_distinct(&self)
        requires
            self.well_formed(),
        ensures
            self.listed().no_duplicates(),
    {
        let listed = self.listed();
        assert forall|i: int, j: int| 0 <= i < j < listed.len() implies listed[i] != listed[j] by {
            assert(self.keys()[i] == listed[i].key() && self.keys()[j] == listed[j].key());
            keys::keys_are_ordered(self.keys()[i], self.keys()[j]);
        }
    }

    pub fn new() -> (set: Self)
        ensures
            set.well_formed(),
            set@ == Set::<OriginView>::empty(),
    {
        let set = OriginSet { origins: Vec::new() };
        proof {
            assert(set.listed() =~= Seq::empty());
            assert(set@ =~= Set::empty());
        }
        set
    }

    /// A set of one member.
    pub fn from_origin(origin: SourceOrigin) -> (set: Self)
        ensures
            set.well_formed(),
            set@ == set![origin@],
    {
        let mut set = OriginSet::new();
        set.insert(origin);
        proof {
            assert(set@ =~= set![origin@]);
        }
        set
    }

    pub fn len(&self) -> (length: usize)
        requires
            self.well_formed(),
        ensures
            length == self@.len(),
            length == self.listed().len(),
    {
        proof {
            self.lemma_distinct();
            self.listed().unique_seq_to_set();
        }
        self.origins.len()
    }

    /// The member at a position, the lowest first.
    pub fn get(&self, index: usize) -> (origin: &SourceOrigin)
        requires
            index < self.listed().len(),
        ensures
            origin@ == self.listed()[index as int],
    {
        &self.origins[index]
    }

    pub fn contains(&self, origin: &SourceOrigin) -> (result: bool)
        ensures
            result == self@.contains(origin@),
    {
        let ghost views = self.listed();
        let mut index: usize = 0;
        while index < self.origins.len()
            invariant
                index <= self.origins.len(),
                views == self.listed(),
                views.len() == self.origins@.len(),
                forall|i: int| 0 <= i < index ==> views[i] != origin@,
            decreases self.origins.len() - index,
        {
            if self.origins[index].same(origin) {
                proof {
                    assert(views[index as int] == origin@);
                }
                return true;
            }
            index += 1;
        }
        false
    }

    pub fn insert(&mut self, origin: SourceOrigin)
        requires
            old(self).well_formed(),
        ensures
            final(self).well_formed(),
            final(self)@ == old(self)@.insert(origin@),
    {
        let ghost before = self.listed();
        let ghost new = origin@;
        let ghost ordered = self.keys();
        let key = origin.key();
        let mut place: usize = 0;
        while place < self.origins.len() && comes_before(&self.origins[place].key(), &key)
            invariant
                place <= self.origins@.len() == before.len(),
                before == self.listed(),
                ordered == self.keys(),
                key@ == new.key(),
                forall|i: int| 0 <= i < place ==> keys::precedes(#[trigger] ordered[i], key@),
            decreases self.origins.len() - place,
        {
            proof {
                assert(ordered[place as int] == before[place as int].key());
                assert(before[place as int] == self.origins@[place as int]@);
            }
            place += 1;
        }
        if place < self.origins.len() && self.origins[place].same(&origin) {
            proof {
                assert(before[place as int] == new);
                assert(self@ =~= old(self)@.insert(new));
            }
            return;
        }
        proof {
            if place < self.origins@.len() {
                assert(before[place as int] == self.origins@[place as int]@);
                assert(ordered[place as int] == before[place as int].key());
                OriginView::keys_tell_apart(before[place as int], new);
                keys::keys_are_ordered(ordered[place as int], key@);
            }
            if place > 0 {
                assert(keys::precedes(ordered[place - 1], key@));
            }
            keys::lemma_put(ordered, place as int, key@);
        }
        self.origins.insert(place, origin);
        proof {
            assert(self.listed() =~= before.insert(place as int, new));
            assert(self.keys() =~= ordered.insert(place as int, key@));
            assert forall|member: OriginView|
                self@.contains(member) == old(self)@.insert(new).contains(member) by {
                let listed = self.listed();
                if before.contains(member) {
                    let i = choose|i: int| 0 <= i < before.len() && before[i] == member;
                    if i < place {
                        assert(listed[i] == member);
                    } else {
                        assert(listed[i + 1] == member);
                    }
                }
                if member == new {
                    assert(listed[place as int] == member);
                }
                if listed.contains(member) && member != new {
                    let i = choose|i: int| 0 <= i < listed.len() && listed[i] == member;
                    if i < place {
                        assert(before[i] == member);
                    } else {
                        assert(before[i - 1] == member);
                    }
                }
            }
            assert(self@ =~= old(self)@.insert(new));
        }
    }

    /// Adds the members of another set.
    pub fn extend(&mut self, other: &OriginSet)
        requires
            old(self).well_formed(),
        ensures
            final(self).well_formed(),
            final(self)@ == old(self)@.union(other@),
    {
        let ghost views = other.listed();
        let mut index: usize = 0;
        proof {
            assert(views.take(0).to_set() =~= Set::empty());
            assert(self@ =~= old(self)@.union(views.take(0).to_set()));
        }
        while index < other.origins.len()
            invariant
                index <= other.origins.len(),
                views == other.listed(),
                views.len() == other.origins@.len(),
                self.well_formed(),
                self@ == old(self)@.union(views.take(index as int).to_set()),
            decreases other.origins.len() - index,
        {
            self.insert(other.origins[index].clone());
            index += 1;
            proof {
                let shorter = views.take(index - 1);
                let longer = views.take(index as int);
                assert(longer =~= shorter.push(views[index - 1]));
                assert forall|member: OriginView|
                    longer.to_set().contains(member) == shorter.to_set().insert(
                        views[index - 1],
                    ).contains(member) by {
                    if shorter.contains(member) {
                        let i = choose|i: int| 0 <= i < shorter.len() && shorter[i] == member;
                        assert(longer[i] == member);
                    }
                    if member == views[index - 1] {
                        assert(longer[index - 1] == member);
                    }
                }
                assert(self@ =~= old(self)@.union(longer.to_set()));
            }
        }
        proof {
            assert(views.take(views.len() as int) =~= views);
        }
    }
}

impl Clone for OriginSet {
    fn clone(&self) -> (copy: Self)
        ensures
            copy@ == self@,
            copy.listed() == self.listed(),
    {
        let ghost views = self.listed();
        let mut origins: Vec<SourceOrigin> = Vec::new();
        let mut index: usize = 0;
        while index < self.origins.len()
            invariant
                index <= self.origins.len(),
                views == self.listed(),
                views.len() == self.origins@.len(),
                origins@.len() == index,
                forall|i: int| 0 <= i < index ==> (#[trigger] origins@[i])@ == views[i],
            decreases self.origins.len() - index,
        {
            origins.push(self.origins[index].clone());
            index += 1;
        }
        let copy = OriginSet { origins };
        proof {
            assert(copy.listed() =~= views);
        }
        copy
    }
}

/// A set of bindings.
#[derive(Debug)]
pub struct BindingSet {
    bindings: Vec<BindingIdentity>,
}

impl BindingSet {
    /// The members, in ascending order.
    pub closed spec fn listed(&self) -> Seq<BindingView> {
        Seq::new(self.bindings@.len(), |i: int| self.bindings@[i]@)
    }

    pub open spec fn view(&self) -> Set<BindingView> {
        self.listed().to_set()
    }

    /// The keys of the members.
    pub open spec fn keys(&self) -> Seq<Seq<u64>> {
        self.listed().map_values(|member: BindingView| member.key())
    }

    /// The members stand in ascending order, none twice.
    pub open spec fn well_formed(&self) -> bool {
        keys::is_ascending(self.keys())
    }

    proof fn lemma_distinct(&self)
        requires
            self.well_formed(),
        ensures
            self.listed().no_duplicates(),
    {
        let listed = self.listed();
        assert forall|i: int, j: int| 0 <= i < j < listed.len() implies listed[i] != listed[j] by {
            assert(self.keys()[i] == listed[i].key() && self.keys()[j] == listed[j].key());
            keys::keys_are_ordered(self.keys()[i], self.keys()[j]);
        }
    }

    pub fn new() -> (set: Self)
        ensures
            set.well_formed(),
            set@ == Set::<BindingView>::empty(),
    {
        let set = BindingSet { bindings: Vec::new() };
        proof {
            assert(set.listed() =~= Seq::empty());
            assert(set@ =~= Set::empty());
        }
        set
    }

    /// A set of one member.
    pub fn from_binding(binding: BindingIdentity) -> (set: Self)
        ensures
            set.well_formed(),
            set@ == set![binding@],
    {
        let mut set = BindingSet::new();
        set.insert(binding);
        proof {
            assert(set@ =~= set![binding@]);
        }
        set
    }

    pub fn len(&self) -> (length: usize)
        requires
            self.well_formed(),
        ensures
            length == self@.len(),
            length == self.listed().len(),
    {
        proof {
            self.lemma_distinct();
            self.listed().unique_seq_to_set();
        }
        self.bindings.len()
    }

    /// The member at a position, the lowest first.
    pub fn get(&self, index: usize) -> (binding: &BindingIdentity)
        requires
            index < self.listed().len(),
        ensures
            binding@ == self.listed()[index as int],
    {
        &self.bindings[index]
    }

    pub fn contains(&self, binding: &BindingIdentity) -> (result: bool)
        ensures
            result == self@.contains(binding@),
    {
        let ghost views = self.listed();
        let mut index: usize = 0;
        while index < self.bindings.len()
            invariant
                index <= self.bindings.len(),
                views == self.listed(),
                views.len() == self.bindings@.len(),
                forall|i: int| 0 <= i < index ==> views[i] != binding@,
            decreases self.bindings.len() - index,
        {
            if self.bindings[index].same(binding) {
                proof {
                    assert(views[index as int] == binding@);
                }
                return true;
            }
            index += 1;
        }
        false
    }

    pub fn insert(&mut self, binding: BindingIdentity)
        requires
            old(self).well_formed(),
        ensures
            final(self).well_formed(),
            final(self)@ == old(self)@.insert(binding@),
    {
        let ghost before = self.listed();
        let ghost new = binding@;
        let ghost ordered = self.keys();
        let key = binding.key();
        let mut place: usize = 0;
        while place < self.bindings.len() && comes_before(&self.bindings[place].key(), &key)
            invariant
                place <= self.bindings@.len() == before.len(),
                before == self.listed(),
                ordered == self.keys(),
                key@ == new.key(),
                forall|i: int| 0 <= i < place ==> keys::precedes(#[trigger] ordered[i], key@),
            decreases self.bindings.len() - place,
        {
            proof {
                assert(ordered[place as int] == before[place as int].key());
                assert(before[place as int] == self.bindings@[place as int]@);
            }
            place += 1;
        }
        if place < self.bindings.len() && self.bindings[place].same(&binding) {
            proof {
                assert(before[place as int] == new);
                assert(self@ =~= old(self)@.insert(new));
            }
            return;
        }
        proof {
            if place < self.bindings@.len() {
                assert(before[place as int] == self.bindings@[place as int]@);
                assert(ordered[place as int] == before[place as int].key());
                BindingView::keys_tell_apart(before[place as int], new);
                keys::keys_are_ordered(ordered[place as int], key@);
            }
            if place > 0 {
                assert(keys::precedes(ordered[place - 1], key@));
            }
            keys::lemma_put(ordered, place as int, key@);
        }
        self.bindings.insert(place, binding);
        proof {
            assert(self.listed() =~= before.insert(place as int, new));
            assert(self.keys() =~= ordered.insert(place as int, key@));
            assert forall|member: BindingView|
                self@.contains(member) == old(self)@.insert(new).contains(member) by {
                let listed = self.listed();
                if before.contains(member) {
                    let i = choose|i: int| 0 <= i < before.len() && before[i] == member;
                    if i < place {
                        assert(listed[i] == member);
                    } else {
                        assert(listed[i + 1] == member);
                    }
                }
                if member == new {
                    assert(listed[place as int] == member);
                }
                if listed.contains(member) && member != new {
                    let i = choose|i: int| 0 <= i < listed.len() && listed[i] == member;
                    if i < place {
                        assert(before[i] == member);
                    } else {
                        assert(before[i - 1] == member);
                    }
                }
            }
            assert(self@ =~= old(self)@.insert(new));
        }
    }

    /// Adds the members of another set.
    pub fn extend(&mut self, other: &BindingSet)
        requires
            old(self).well_formed(),
        ensures
            final(self).well_formed(),
            final(self)@ == old(self)@.union(other@),
    {
        let ghost views = other.listed();
        let mut index: usize = 0;
        proof {
            assert(views.take(0).to_set() =~= Set::empty());
            assert(self@ =~= old(self)@.union(views.take(0).to_set()));
        }
        while index < other.bindings.len()
            invariant
                index <= other.bindings.len(),
                views == other.listed(),
                views.len() == other.bindings@.len(),
                self.well_formed(),
                self@ == old(self)@.union(views.take(index as int).to_set()),
            decreases other.bindings.len() - index,
        {
            self.insert(other.bindings[index].clone());
            index += 1;
            proof {
                let shorter = views.take(index - 1);
                let longer = views.take(index as int);
                assert(longer =~= shorter.push(views[index - 1]));
                assert forall|member: BindingView|
                    longer.to_set().contains(member) == shorter.to_set().insert(
                        views[index - 1],
                    ).contains(member) by {
                    if shorter.contains(member) {
                        let i = choose|i: int| 0 <= i < shorter.len() && shorter[i] == member;
                        assert(longer[i] == member);
                    }
                    if member == views[index - 1] {
                        assert(longer[index - 1] == member);
                    }
                }
                assert(self@ =~= old(self)@.union(longer.to_set()));
            }
        }
        proof {
            assert(views.take(views.len() as int) =~= views);
        }
    }
}

impl Clone for BindingSet {
    fn clone(&self) -> (copy: Self)
        ensures
            copy@ == self@,
            copy.listed() == self.listed(),
    {
        let ghost views = self.listed();
        let mut bindings: Vec<BindingIdentity> = Vec::new();
        let mut index: usize = 0;
        while index < self.bindings.len()
            invariant
                index <= self.bindings.len(),
                views == self.listed(),
                views.len() == self.bindings@.len(),
                bindings@.len() == index,
                forall|i: int| 0 <= i < index ==> (#[trigger] bindings@[i])@ == views[i],
            decreases self.bindings.len() - index,
        {
            bindings.push(self.bindings[index].clone());
            index += 1;
        }
        let copy = BindingSet { bindings };
        proof {
            assert(copy.listed() =~= views);
        }
        copy
    }
}


/// What is known of one local: what it stands for, and the instructions that
/// define and use it.
#[derive(Debug)]
struct LocalProvenance {
    bindings: BindingSet,
    definitions: OriginSet,
    uses: OriginSet,
}

/// The model of what is known of one local.
#[verifier::ext_equal]
pub struct LocalProvenanceView {
    pub bindings: Set<BindingView>,
    pub definitions: Set<OriginView>,
    pub uses: Set<OriginView>,
}

impl LocalProvenanceView {
    /// Nothing known yet.
    pub open spec fn unknown() -> LocalProvenanceView {
        LocalProvenanceView {
            bindings: Set::empty(),
            definitions: Set::empty(),
            uses: Set::empty(),
        }
    }

    /// What is known of either of two locals.
    pub open spec fn joined(self, other: LocalProvenanceView) -> LocalProvenanceView {
        LocalProvenanceView {
            bindings: self.bindings.union(other.bindings),
            definitions: self.definitions.union(other.definitions),
            uses: self.uses.union(other.uses),
        }
    }

    /// What is known of any of the locals from position `from` on.
    pub open spec fn joined_from(
        known: Map<u64, LocalProvenanceView>,
        sources: Seq<RcLocal>,
        from: int,
    ) -> LocalProvenanceView
        decreases sources.len() - from,
    {
        if 0 <= from < sources.len() {
            let rest = Self::joined_from(known, sources, from + 1);
            if known.dom().contains(sources[from].id) {
                known[sources[from].id].joined(rest)
            } else {
                rest
            }
        } else {
            Self::unknown()
        }
    }
}

impl LocalProvenance {
    spec fn view(&self) -> LocalProvenanceView {
        LocalProvenanceView {
            bindings: self.bindings@,
            definitions: self.definitions@,
            uses: self.uses@,
        }
    }

    spec fn well_formed(&self) -> bool {
        self.bindings.well_formed() && self.definitions.well_formed() && self.uses.well_formed()
    }

    fn new() -> (fresh: Self)
        ensures
            fresh.well_formed(),
            fresh@ == LocalProvenanceView::unknown(),
    {
        LocalProvenance {
            bindings: BindingSet::new(),
            definitions: OriginSet::new(),
            uses: OriginSet::new(),
        }
    }

    fn join(&mut self, other: &LocalProvenance)
        requires
            old(self).well_formed(),
        ensures
            final(self).well_formed(),
            final(self)@ == old(self)@.joined(other@),
    {
        self.bindings.extend(&other.bindings);
        self.definitions.extend(&other.definitions);
        self.uses.extend(&other.uses);
    }
}

/// What is known of the locals of a function.
#[derive(Debug)]
pub struct Provenance {
    locals: FxHashMap<u64, LocalProvenance>,
}

impl Provenance {
    /// What is known of each local, by its number.
    pub closed spec fn view(&self) -> Map<u64, LocalProvenanceView> {
        Map::new(|id: u64| self.locals@.dom().contains(id), |id: u64| self.locals@[id]@)
    }

    /// No set lists a member twice.
    pub closed spec fn well_formed(&self) -> bool {
        forall|id: u64|
            self.locals@.dom().contains(id) ==> (#[trigger] self.locals@[id]).well_formed()
    }

    /// What is known of a local; nothing where it is unknown.
    pub open spec fn known(&self, local: RcLocal) -> LocalProvenanceView {
        if self@.dom().contains(local.id) {
            self@[local.id]
        } else {
            LocalProvenanceView::unknown()
        }
    }

    fn put(&mut self, local: RcLocal, entry: LocalProvenance)
        requires
            old(self).well_formed(),
            entry.well_formed(),
        ensures
            final(self).well_formed(),
            final(self)@ == old(self)@.insert(local.id, entry@),
    {
        insert_entry(&mut self.locals, local.id, entry);
        proof {
            assert(self@ =~= old(self)@.insert(local.id, entry@));
        }
    }

    fn take(&mut self, local: RcLocal) -> (entry: Option<LocalProvenance>)
        requires
            old(self).well_formed(),
        ensures
            final(self).well_formed(),
            final(self)@ == old(self)@.remove(local.id),
            match entry {
                Some(entry) => entry.well_formed() && old(self)@.dom().contains(local.id)
                    && old(self)@[local.id] == entry@,
                None => !old(self)@.dom().contains(local.id),
            },
    {
        let entry = remove_entry(&mut self.locals, local.id);
        proof {
            assert(self@ =~= old(self)@.remove(local.id));
        }
        entry
    }

    /// Makes a local known, if it is not yet, as standing for `binding`.
    pub fn ensure_local(&mut self, local: RcLocal, binding: BindingIdentity)
        requires
            old(self).well_formed(),
        ensures
            final(self).well_formed(),
            final(self)@ == (if old(self)@.dom().contains(local.id) {
                old(self)@
            } else {
                old(self)@.insert(
                    local.id,
                    LocalProvenanceView {
                        bindings: set![binding@],
                        definitions: Set::empty(),
                        uses: Set::empty(),
                    },
                )
            }),
    {
        if find_entry(&self.locals, local.id).is_none() {
            let entry = LocalProvenance {
                bindings: BindingSet::from_binding(binding),
                definitions: OriginSet::new(),
                uses: OriginSet::new(),
            };
            self.put(local, entry);
        }
    }

    /// Records that an instruction defines a local, which then stands for
    /// `binding` too.
    pub fn record_definition(
        &mut self,
        local: RcLocal,
        binding: BindingIdentity,
        origin: SourceOrigin,
    )
        requires
            old(self).well_formed(),
        ensures
            final(self).well_formed(),
            final(self)@ == old(self)@.insert(
                local.id,
                LocalProvenanceView {
                    bindings: old(self).known(local).bindings.insert(binding@),
                    definitions: old(self).known(local).definitions.insert(origin@),
                    uses: old(self).known(local).uses,
                },
            ),
    {
        let mut entry = match self.take(local) {
            Some(entry) => entry,
            None => LocalProvenance::new(),
        };
        entry.bindings.insert(binding);
        entry.definitions.insert(origin);
        self.put(local, entry);
        proof {
            assert(self@ =~= old(self)@.insert(local.id, entry@));
        }
    }

    /// Records that an instruction uses a local, where that is known.
    pub fn record_use(&mut self, local: RcLocal, origin: SourceOrigin)
        requires
            old(self).well_formed(),
        ensures
            final(self).well_formed(),
            final(self)@ == (if old(self)@.dom().contains(local.id) {
                old(self)@.insert(
                    local.id,
                    LocalProvenanceView {
                        uses: old(self)@[local.id].uses.insert(origin@),
                        ..old(self)@[local.id]
                    },
                )
            } else {
                old(self)@
            }),
    {
        match self.take(local) {
            Some(entry) => {
                let mut entry = entry;
                entry.uses.insert(origin);
                self.put(local, entry);
            },
            None => {},
        }
        proof {
            if old(self)@.dom().contains(local.id) {
                assert(self@ =~= old(self)@.insert(
                    local.id,
                    LocalProvenanceView {
                        uses: old(self)@[local.id].uses.insert(origin@),
                        ..old(self)@[local.id]
                    },
                ));
            } else {
                assert(self@ =~= old(self)@);
            }
        }
    }

    fn gather(&self, sources: &Vec<RcLocal>) -> (gathered: LocalProvenance)
        requires
            self.well_formed(),
        ensures
            gathered.well_formed(),
            gathered@ == LocalProvenanceView::joined_from(self@, sources@, 0),
    {
        let mut gathered = LocalProvenance::new();
        let mut index: usize = sources.len();
        while index > 0
            invariant
                index <= sources.len(),
                self.well_formed(),
                gathered.well_formed(),
                gathered@ == LocalProvenanceView::joined_from(self@, sources@, index as int),
            decreases index,
        {
            index -= 1;
            match find_entry(&self.locals, sources[index].id) {
                Some(entry) => {
                    gathered.join(entry);
                    proof {
                        assert(self@.dom().contains(sources@[index as int].id));
                        assert(gathered@ =~= LocalProvenanceView::joined_from(
                            self@,
                            sources@,
                            index as int,
                        ));
                    }
                },
                None => {},
            }
        }
        gathered
    }

    /// Makes a local stand for all that the sources stand for, with their
    /// definitions and uses; for `fallback_binding` where they stand for
    /// nothing.
    pub fn merge_locals(
        &mut self,
        target: RcLocal,
        fallback_binding: BindingIdentity,
        sources: &Vec<RcLocal>,
    )
        requires
            old(self).well_formed(),
        ensures
            final(self).well_formed(),
            final(self)@ == old(self)@.insert(
                target.id,
                ({
                    let joined = LocalProvenanceView::joined_from(old(self)@, sources@, 0);
                    if joined.bindings == Set::<BindingView>::empty() {
                        LocalProvenanceView { bindings: set![fallback_binding@], ..joined }
                    } else {
                        joined
                    }
                }),
            ),
    {
        let mut entry = self.gather(sources);
        if entry.bindings.len() == 0 {
            proof {
                assert(entry.bindings.listed() =~= Seq::empty());
                assert(entry.bindings@ =~= Set::empty());
            }
            entry.bindings.insert(fallback_binding);
            proof {
                assert(entry.bindings@ =~= set![fallback_binding@]);
            }
        } else {
            proof {
                assert(entry.bindings@.contains(entry.bindings.listed()[0]));
            }
        }
        self.put(target, entry);
    }

    /// Makes a local stand for `binding`, with the definitions and uses of the
    /// sources.
    pub fn derive_local(
        &mut self,
        target: RcLocal,
        binding: BindingIdentity,
        sources: &Vec<RcLocal>,
    )
        requires
            old(self).well_formed(),
        ensures
            final(self).well_formed(),
            final(self)@ == old(self)@.insert(
                target.id,
                LocalProvenanceView {
                    bindings: set![binding@],
                    ..LocalProvenanceView::joined_from(old(self)@, sources@, 0)
                },
            ),
    {
        let mut entry = self.gather(sources);
        entry.bindings = BindingSet::from_binding(binding);
        self.put(target, entry);
    }

    /// The instructions that define a local.
    pub fn origins(&self, local: RcLocal) -> (origins: OriginSet)
        requires
            self.well_formed(),
        ensures
            origins.well_formed(),
            origins@ == self.known(local).definitions,
    {
        match find_entry(&self.locals, local.id) {
            Some(entry) => entry.definitions.clone(),
            None => OriginSet::new(),
        }
    }

    /// The instructions that use a local.
    pub fn uses(&self, local: RcLocal) -> (origins: OriginSet)
        requires
            self.well_formed(),
        ensures
            origins.well_formed(),
            origins@ == self.known(local).uses,
    {
        match find_entry(&self.locals, local.id) {
            Some(entry) => entry.uses.clone(),
            None => OriginSet::new(),
        }
    }

    /// What a local stands for, where that is one thing only.
    pub fn binding(&self, local: RcLocal) -> (binding: Option<&BindingIdentity>)
        requires
            self.well_formed(),
        ensures
            match binding {
                Some(binding) => self.known(local).bindings == set![binding@],
                None => self.known(local).bindings.len() != 1,
            },
    {
        match find_entry(&self.locals, local.id) {
            Some(entry) => if entry.bindings.len() == 1 {
                let binding = entry.bindings.get(0);
                proof {
                    let listed = entry.bindings.listed();
                    assert(listed =~= seq![binding@]);
                    assert(entry.bindings@ =~= set![binding@]) by {
                        assert forall|member: BindingView|
                            entry.bindings@.contains(member) == set![binding@].contains(
                                member,
                            ) by {
                            if member == binding@ {
                                assert(listed[0] == member);
                            }
                        }
                    }
                }
                Some(binding)
            } else {
                None
            },
            None => None,
        }
    }

    /// All that a local stands for.
    pub fn bindings(&self, local: RcLocal) -> (bindings: BindingSet)
        requires
            self.well_formed(),
        ensures
            bindings.well_formed(),
            bindings@ == self.known(local).bindings,
    {
        match find_entry(&self.locals, local.id) {
            Some(entry) => entry.bindings.clone(),
            None => BindingSet::new(),
        }
    }
}

impl Default for Provenance {
    fn default() -> (provenance: Self)
        ensures
            provenance.well_formed(),
            provenance@ == Map::<u64, LocalProvenanceView>::empty(),
    {
        let provenance = Provenance { locals: empty_map() };
        proof {
            assert(provenance@ =~= Map::<u64, LocalProvenanceView>::empty());
        }
        provenance
    }
}

proof fn lemma_joined_contains(
    known: Map<u64, LocalProvenanceView>,
    sources: Seq<RcLocal>,
    from: int,
    i: int,
)
    requires
        0 <= from <= i < sources.len(),
        known.dom().contains(sources[i].id),
    ensures
        known[sources[i].id].definitions.subset_of(
            LocalProvenanceView::joined_from(known, sources, from).definitions,
        ),
        known[sources[i].id].bindings.subset_of(
            LocalProvenanceView::joined_from(known, sources, from).bindings,
        ),
        known[sources[i].id].uses.subset_of(
            LocalProvenanceView::joined_from(known, sources, from).uses,
        ),
    decreases i - from,
{
    if from < i {
        lemma_joined_contains(known, sources, from + 1, i);
    }
}

/// A merged local retains every origin and every binding of each source that
/// contributed.
pub proof fn merging_retains_sources(
    known: Map<u64, LocalProvenanceView>,
    sources: Seq<RcLocal>,
    i: int,
)
    requires
        0 <= i < sources.len(),
        known.dom().contains(sources[i].id),
    ensures
        known[sources[i].id].definitions.subset_of(
            LocalProvenanceView::joined_from(known, sources, 0).definitions,
        ),
        known[sources[i].id].bindings.subset_of(
            LocalProvenanceView::joined_from(known, sources, 0).bindings,
        ),
        known[sources[i].id].uses.subset_of(
            LocalProvenanceView::joined_from(known, sources, 0).uses,
        ),
{
    lemma_joined_contains(known, sources, 0, i);
}

/// Different stretches of one register that do not overlap give its local
/// different identities, so that a reused register keeps its values apart.
pub proof fn disjoint_lifetimes_stay_apart(family: FamilyView, first: usize, second: usize)
    requires
        family.binding is Local,
        LifetimeView::only_cover(family.lifetimes, first) is Some,
        LifetimeView::only_cover(family.lifetimes, second) is Some,
        !LifetimeView::only_cover(family.lifetimes, first)->0.covers(second),
    ensures
        family.binding_at(first) != family.binding_at(second),
{
    let i = choose|i: int| LifetimeView::sole_cover(family.lifetimes, first, i);
    let j = choose|i: int| LifetimeView::sole_cover(family.lifetimes, second, i);
    assert(LifetimeView::sole_cover(family.lifetimes, first, i));
    assert(LifetimeView::sole_cover(family.lifetimes, second, j));
    assert(family.lifetimes[j].covers(second));
}

} // verus!
