//! How a caller names a virtual machine: by name or by unique identifier.

use crate::err::Error;
use crate::ident::{hyphenated, parse_uuid, uuid_hyphenated, uuid_parse_str};
use vstd::prelude::*;

verus! {

/// The designation of a virtual machine.
///
/// A name is easier to remember than an identifier, but only the identifier is unique.
#[derive(Clone, Debug)]
pub enum VmId {
    Name(String),
    Uuid(u128),
}

/// A machine's designation as mathematical data.
pub enum VmIdView {
    Name(Seq<char>),
    Uuid(u128),
}

impl View for VmId {
    type V = VmIdView;

    open spec fn view(&self) -> VmIdView {
        match self {
            VmId::Name(name) => VmIdView::Name(name@),
            VmId::Uuid(id) => VmIdView::Uuid(*id),
        }
    }
}

/// The designation that a text stands for: an identifier where the text parses as one, else a
/// name. A name that looks like an identifier is therefore taken for an identifier.
pub open spec fn designation(text: Seq<char>) -> VmIdView {
    match uuid_parse_str(text) {
        Some(id) => VmIdView::Uuid(id),
        None => VmIdView::Name(text),
    }
}

impl VmId {
    /// The text that designates the machine on a command line: the name itself, or the
    /// identifier in hyphenated form between braces.
    pub open spec fn text(&self) -> Seq<char> {
        match self {
            VmId::Name(name) => name@,
            VmId::Uuid(id) => seq!['{'] + hyphenated(*id) + seq!['}'],
        }
    }

    /// The text that designates the machine on a command line.
    pub fn to_string(&self) -> (text: String)
        ensures
            text@ == self.text(),
    {
        match self {
            VmId::Name(name) => name.clone(),
            VmId::Uuid(id) => {
                let mut text = String::new();
                text.push('{');
                text.append(uuid_hyphenated(*id).as_str());
                text.push('}');
                assert(text@ =~= self.text());
                text
            },
        }
    }

    /// The designation by the given name, whatever the name looks like.
    pub fn from(name: &str) -> (id: VmId)
        ensures
            id@ == VmIdView::Name(name@),
    {
        VmId::Name(String::from_str(name))
    }

    /// The designation that a text stands for, given what the text is read as: the identifier
    /// where there is one, else the text as a name.
    pub fn from_reading(text: &str, reading: Option<u128>) -> (id: VmId)
        ensures
            id@ == match reading {
                Some(uuid) => VmIdView::Uuid(uuid),
                None => VmIdView::Name(text@),
            },
    {
        match reading {
            Some(uuid) => VmId::Uuid(uuid),
            None => VmId::Name(String::from_str(text)),
        }
    }

    /// Reads a designation: an identifier where the text parses as one, else a name.
    pub fn from_str(text: &str) -> (r: Result<VmId, Error>)
        ensures
            r matches Ok(id) && id@ == designation(text@),
    {
        Ok(VmId::from_reading(text, parse_uuid(text)))
    }
}

impl core::str::FromStr for VmId {
    type Err = Error;

    fn from_str(text: &str) -> (r: Result<VmId, Error>)
        ensures
            r matches Ok(id) && id@ == designation(text@),
    {
        VmId::from_str(text)
    }
}

} // verus!
