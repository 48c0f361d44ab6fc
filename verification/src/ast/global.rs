//! Global variables.

use vstd::prelude::*;

use crate::ast::local::{is_valid_identifier_in, IdentifierContext};
use crate::text::{copy_bytes, push_ascii, push_escaped, same_bytes, text_bytes};

verus! {

/// How a global came to be referred to by name.
#[derive(Debug, Clone, Copy, PartialEq, Eq, PartialOrd, Ord, Structural)]
pub enum GlobalOrigin {
    Dynamic,
    CompilerImport,
}

impl Default for GlobalOrigin {
    fn default() -> (origin: Self)
        ensures
            origin == GlobalOrigin::Dynamic,
    {
        GlobalOrigin::Dynamic
    }
}

/// A global variable.
#[derive(Debug)]
pub struct Global {
    name: Vec<u8>,
    origin: GlobalOrigin,
}

/// The model of a `Global`.
#[verifier::ext_equal]
pub struct GlobalView {
    pub name: Seq<u8>,
    pub origin: GlobalOrigin,
}

impl GlobalView {
    /// How a global is written: by its name where that is an identifier, else
    /// through the runtime environment.
    pub open spec fn text(self) -> Seq<char> {
        if IdentifierContext::is_identifier(self.name) {
            crate::text::ascii_text(self.name)
        } else {
            "getfenv(0)[\""@ + crate::text::escaped(self.name) + "\"]"@
        }
    }
}

impl Global {
    pub closed spec fn view(&self) -> GlobalView {
        GlobalView { name: self.name@, origin: self.origin }
    }

    pub fn new(name: Vec<u8>) -> (global: Self)
        ensures
            global@ == (GlobalView { name: name@, origin: GlobalOrigin::Dynamic }),
    {
        Global { name, origin: GlobalOrigin::Dynamic }
    }

    pub fn compiler_import(name: Vec<u8>) -> (global: Self)
        ensures
            global@ == (GlobalView { name: name@, origin: GlobalOrigin::CompilerImport }),
    {
        Global { name, origin: GlobalOrigin::CompilerImport }
    }

    pub fn origin(&self) -> (origin: GlobalOrigin)
        ensures
            origin == self@.origin,
    {
        self.origin
    }

    pub fn name(&self) -> (name: &[u8])
        ensures
            name@ == self@.name,
    {
        self.name.as_slice()
    }

    pub fn into_name(self) -> (name: Vec<u8>)
        ensures
            name@ == self@.name,
    {
        self.name
    }

    /// Appends the text of this global.
    pub fn push_to(&self, out: &mut String)
        ensures
            final(out)@ == old(out)@ + self@.text(),
    {
        if is_valid_identifier_in(self.name.as_slice(), IdentifierContext::GlobalExpression) {
            push_ascii(out, self.name.as_slice());
        } else {
            out.append("getfenv(0)[\"");
            push_escaped(out, self.name.as_slice());
            out.append("\"]");
            proof {
                assert(out@ =~= old(out)@ + self@.text());
            }
        }
    }

    /// How the global is written in the source.
    pub fn to_string(&self) -> (text: String)
        ensures
            text@ == self@.text(),
    {
        let mut text = String::new();
        self.push_to(&mut text);
        proof {
            assert(text@ =~= self@.text());
        }
        text
    }
}

impl Clone for Global {
    fn clone(&self) -> (copy: Self)
        ensures
            copy@ == self@,
    {
        Global { name: copy_bytes(self.name.as_slice()), origin: self.origin }
    }
}

impl PartialEq for Global {
    fn eq(&self, other: &Self) -> (result: bool) {
        same_bytes(self.name.as_slice(), other.name.as_slice()) && self.origin == other.origin
    }
}

impl vstd::std_specs::cmp::PartialEqSpecImpl for Global {
    open spec fn obeys_eq_spec() -> bool {
        true
    }

    open spec fn eq_spec(&self, other: &Self) -> bool {
        self@ == other@
    }
}

impl From<Vec<u8>> for Global {
    fn from(name: Vec<u8>) -> (global: Self)
        ensures
            global@ == (GlobalView { name: name@, origin: GlobalOrigin::Dynamic }),
    {
        Global::new(name)
    }
}

impl vstd::std_specs::convert::FromSpecImpl<Vec<u8>> for Global {
    open spec fn obeys_from_spec() -> bool {
        false
    }

    open spec fn from_spec(name: Vec<u8>) -> Self {
        arbitrary()
    }
}

impl<'a> From<&'a str> for Global {
    fn from(name: &'a str) -> (global: Self)
        ensures
            global@ == (GlobalView {
                name: vstd::utf8::encode_utf8(name@),
                origin: GlobalOrigin::Dynamic,
            }),
    {
        Global::new(text_bytes(name))
    }
}

impl<'a> vstd::std_specs::convert::FromSpecImpl<&'a str> for Global {
    open spec fn obeys_from_spec() -> bool {
        false
    }

    open spec fn from_spec(name: &'a str) -> Self {
        arbitrary()
    }
}

} // verus!
