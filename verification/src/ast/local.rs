//! Local variables and the spelling of identifiers.

use vstd::prelude::*;

use crate::text::{push_decimal, spells};

verus! {

/// A local variable's source name, where it has one.
#[derive(Debug, PartialEq, Eq, PartialOrd, Ord, Hash)]
pub struct Local(pub Option<String>);

/// The syntactic position a name is used in.
#[derive(Clone, Copy, Debug, PartialEq, Eq, Structural)]
pub enum IdentifierContext {
    Local,
    Parameter,
    GlobalExpression,
    FunctionName,
    MethodName,
    MemberName,
    TableField,
    TypeDeclaration,
}

impl IdentifierContext {
    /// Whether a byte may stand at `index` of a name.
    pub open spec fn allows_byte(index: int, byte: u8) -> bool {
        ||| index != 0 && 48 <= byte <= 57
        ||| 65 <= byte <= 90
        ||| 97 <= byte <= 122
        ||| byte == 95
    }

    /// The reserved words, which no context takes as a name.
    pub open spec fn is_keyword(word: Seq<char>) -> bool {
        ||| word == "and"@
        ||| word == "break"@
        ||| word == "do"@
        ||| word == "else"@
        ||| word == "elseif"@
        ||| word == "end"@
        ||| word == "false"@
        ||| word == "for"@
        ||| word == "function"@
        ||| word == "if"@
        ||| word == "in"@
        ||| word == "local"@
        ||| word == "nil"@
        ||| word == "not"@
        ||| word == "or"@
        ||| word == "repeat"@
        ||| word == "return"@
        ||| word == "then"@
        ||| word == "true"@
        ||| word == "until"@
        ||| word == "while"@
    }

    /// Whether `name` is spelled as an identifier and is no reserved word.
    pub open spec fn is_identifier(name: Seq<u8>) -> bool {
        &&& name.len() > 0
        &&& forall|i: int| 0 <= i < name.len() ==> Self::allows_byte(i, #[trigger] name[i])
        &&& !Self::is_keyword(crate::text::ascii_text(name))
    }
}

fn is_keyword(name: &[u8]) -> (result: bool)
    ensures
        result == IdentifierContext::is_keyword(crate::text::ascii_text(name@)),
{
    spells(name, "and") || spells(name, "break") || spells(name, "do") || spells(name, "else")
        || spells(name, "elseif") || spells(name, "end") || spells(name, "false")
        || spells(name, "for") || spells(name, "function") || spells(name, "if")
        || spells(name, "in") || spells(name, "local") || spells(name, "nil")
        || spells(name, "not") || spells(name, "or") || spells(name, "repeat")
        || spells(name, "return") || spells(name, "then") || spells(name, "true")
        || spells(name, "until") || spells(name, "while")
}

/// Whether `name` can be written as an identifier in `context`. Every context
/// reserves the same words; the contextual ones (`type`, `continue`, ...) are
/// ordinary names.
pub fn is_valid_identifier_in(name: &[u8], context: IdentifierContext) -> (result: bool)
    ensures
        result == IdentifierContext::is_identifier(name@),
{
    if name.len() == 0 {
        return false;
    }
    let mut index: usize = 0;
    while index < name.len()
        invariant
            index <= name.len(),
            forall|i: int| 0 <= i < index ==> IdentifierContext::allows_byte(i, #[trigger] name@[i]),
        decreases name.len() - index,
    {
        let byte: u8 = name[index];
        let allowed = (index != 0 && 48 <= byte && byte <= 57) || (65 <= byte && byte <= 90) || (97
            <= byte && byte <= 122) || byte == 95;
        if !allowed {
            proof {
                assert(!IdentifierContext::allows_byte(index as int, name@[index as int]));
            }
            return false;
        }
        index += 1;
    }
    !is_keyword(name)
}

/// Whether `name` can name a local variable.
pub fn is_valid_identifier(name: &[u8]) -> (result: bool)
    ensures
        result == IdentifierContext::is_identifier(name@),
{
    is_valid_identifier_in(name, IdentifierContext::Local)
}

/// An optional text, as a sequence of characters.
pub open spec fn text_of(name: Option<String>) -> Option<Seq<char>> {
    match name {
        Some(text) => Some(text@),
        None => None,
    }
}

fn copy_name(name: &Option<String>) -> (copy: Option<String>)
    ensures
        text_of(copy) == text_of(*name),
{
    match name {
        Some(text) => Some(text.clone()),
        None => None,
    }
}

impl Local {
    pub fn new(name: Option<String>) -> (local: Self)
        ensures
            local.0 == name,
    {
        Local(name)
    }

    /// The name, or `UNNAMED_LOCAL` where there is none.
    pub fn to_string(&self) -> (text: String)
        ensures
            text@ == match self.0 {
                Some(name) => name@,
                None => "UNNAMED_LOCAL"@,
            },
    {
        match &self.0 {
            Some(name) => name.clone(),
            None => {
                let mut text = String::new();
                text.append("UNNAMED_LOCAL");
                proof {
                    assert(text@ =~= "UNNAMED_LOCAL"@);
                }
                text
            },
        }
    }
}

impl Clone for Local {
    fn clone(&self) -> (copy: Self)
        ensures
            text_of(copy.0) == text_of(self.0),
    {
        Local(copy_name(&self.0))
    }
}

impl Default for Local {
    fn default() -> (local: Self)
        ensures
            local.0 is None,
    {
        Local(None)
    }
}

/// A handle on a local variable. Its identity is its creation sequence number:
/// two handles are the same local exactly when the numbers agree, and locals
/// are ordered as they were created.
#[derive(Debug, Clone, Copy, PartialEq, Eq, PartialOrd, Ord, Hash, Structural)]
pub struct RcLocal {
    pub id: u64,
}

/// The locals created so far, with their names. A local's number is its
/// position, so numbers are never reused.
#[derive(Debug)]
pub struct Locals {
    names: Vec<Option<String>>,
}

impl Locals {
    /// The names of the locals, in the order of creation.
    pub closed spec fn view(&self) -> Seq<Option<Seq<char>>> {
        Seq::new(self.names@.len(), |i: int| text_of(self.names@[i]))
    }

    /// Whether this arena created `local`.
    pub open spec fn contains(&self, local: RcLocal) -> bool {
        local.id < self@.len()
    }

    /// The name of a local, where it has one.
    pub open spec fn name_in(names: Seq<Option<Seq<char>>>, local: RcLocal) -> Option<Seq<char>> {
        if local.id < names.len() {
            names[local.id as int]
        } else {
            None
        }
    }

    /// How a local is written: its name, or `UNNAMED_` and its number.
    pub open spec fn spelling(names: Seq<Option<Seq<char>>>, local: RcLocal) -> Seq<char> {
        match Self::name_in(names, local) {
            Some(name) => name,
            None => "UNNAMED_"@ + crate::text::decimal(local.id as nat),
        }
    }

    pub fn new() -> (locals: Self)
        ensures
            locals@ == Seq::<Option<Seq<char>>>::empty(),
    {
        let locals = Locals { names: Vec::new() };
        proof {
            assert(locals@ =~= Seq::<Option<Seq<char>>>::empty());
        }
        locals
    }

    pub fn len(&self) -> (length: usize)
        ensures
            length == self@.len(),
    {
        self.names.len()
    }

    /// The name of `local`.
    pub fn name(&self, local: RcLocal) -> (name: Option<String>)
        ensures
            text_of(name) == Self::name_in(self@, local),
    {
        if local.id < self.names.len() as u64 {
            copy_name(&self.names[local.id as usize])
        } else {
            None
        }
    }

    /// Gives `local` a new name, or takes it away.
    pub fn set_name(&mut self, local: RcLocal, name: Option<String>)
        requires
            old(self).contains(local),
        ensures
            final(self)@ == old(self)@.update(local.id as int, text_of(name)),
    {
        let length: usize = self.names.len();
        assert(local.id < length);
        self.names.set(local.id as usize, name);
        proof {
            assert(self@ =~= old(self)@.update(local.id as int, text_of(name)));
        }
    }

    /// The names, with a local given one.
    pub open spec fn with_name(
        names: Seq<Option<Seq<char>>>,
        local: RcLocal,
        name: Seq<char>,
    ) -> Seq<Option<Seq<char>>> {
        if local.id < names.len() {
            names.update(local.id as int, Some(name))
        } else {
            names
        }
    }

    /// Names `local`, if this arena created it.
    pub fn give_name(&mut self, local: RcLocal, name: String)
        ensures
            final(self)@ == Self::with_name(old(self)@, local, name@),
    {
        if local.id < self.names.len() as u64 {
            self.set_name(local, Some(name));
        }
    }
}

impl Default for Locals {
    fn default() -> (locals: Self)
        ensures
            locals@ == Seq::<Option<Seq<char>>>::empty(),
    {
        Locals::new()
    }
}

impl RcLocal {
    /// Creates a local: a fresh handle, numbered next in the order of creation.
    pub fn new(locals: &mut Locals, local: Local) -> (handle: Self)
        ensures
            handle.id == old(locals)@.len(),
            final(locals)@ == old(locals)@.push(text_of(local.0)),
    {
        let handle = RcLocal { id: locals.names.len() as u64 };
        locals.names.push(local.0);
        proof {
            assert(locals@ =~= old(locals)@.push(text_of(local.0)));
        }
        handle
    }

    /// The creation sequence number that gives this local its identity.
    pub fn id(&self) -> (id: u64)
        ensures
            id == self.id,
    {
        self.id
    }

    /// Appends the spelling of this local.
    pub fn push_to(&self, locals: &Locals, out: &mut String)
        ensures
            final(out)@ == old(out)@ + Locals::spelling(locals@, *self),
    {
        match locals.name(*self) {
            Some(name) => {
                out.append(name.as_str());
            },
            None => {
                out.append("UNNAMED_");
                push_decimal(out, self.id as u128);
                proof {
                    assert(out@ =~= old(out)@ + Locals::spelling(locals@, *self));
                }
            },
        }
    }

    /// The name, or `UNNAMED_` and the number where there is none.
    pub fn to_string(&self, locals: &Locals) -> (text: String)
        ensures
            text@ == Locals::spelling(locals@, *self),
    {
        let mut text = String::new();
        self.push_to(locals, &mut text);
        proof {
            assert(text@ =~= Locals::spelling(locals@, *self));
        }
        text
    }
}

/// A local created later is a different local from every earlier one, and
/// creating it leaves the earlier names as they were.
pub proof fn fresh_locals_are_distinct(
    before: Seq<Option<Seq<char>>>,
    name: Option<Seq<char>>,
    earlier: RcLocal,
    fresh: RcLocal,
)
    requires
        earlier.id < before.len(),
        fresh.id == before.len(),
    ensures
        earlier != fresh,
        Locals::name_in(before.push(name), fresh) == name,
        Locals::name_in(before.push(name), earlier) == Locals::name_in(before, earlier),
{
}

} // verus!
