//! The failures that parsing and lookups can report.

use vstd::prelude::*;

verus! {

/// Why a buffer could not be turned into structured data, or why a lookup gave no single answer.
///
/// Every variant but `Timeout` carries a message for the person who reads the report.
#[derive(Debug)]
pub enum Error {
    /// The input is not valid UTF-8 text.
    Encoding(String),
    /// A value that has to be a unique identifier or an address does not parse as one.
    BadFormat(String),
    /// A key that has to be present at this point is absent.
    MissingData(String),
    /// A lookup by name matched more than one entry.
    Ambiguous(String),
    /// A lookup by name matched no entry.
    NotFound(String),
    /// Waiting for a state ran past its time limit.
    Timeout,
}

impl Error {
    /// The message that the error carries; empty for `Timeout`.
    pub open spec fn message(&self) -> Seq<char> {
        match self {
            Error::Encoding(s) => s@,
            Error::BadFormat(s) => s@,
            Error::MissingData(s) => s@,
            Error::Ambiguous(s) => s@,
            Error::NotFound(s) => s@,
            Error::Timeout => Seq::empty(),
        }
    }

    /// The words that introduce each kind of error in a report.
    pub open spec fn heading(&self) -> Seq<char> {
        match self {
            Error::Encoding(_) => "Encoding error; "@,
            Error::BadFormat(_) => "Bad format error; "@,
            Error::MissingData(_) => "Missing expected data error; "@,
            Error::Ambiguous(_) => "Ambiguity error; "@,
            Error::NotFound(_) => "Not found; "@,
            Error::Timeout => "Timeout"@,
        }
    }

    /// The report line: the heading of the kind, then the message.
    pub fn to_string(&self) -> (text: String)
        ensures
            text@ == self.heading() + self.message(),
    {
        match self {
            Error::Encoding(s) => String::from_str("Encoding error; ").concat(s.as_str()),
            Error::BadFormat(s) => String::from_str("Bad format error; ").concat(s.as_str()),
            Error::MissingData(s) => String::from_str("Missing expected data error; ").concat(
                s.as_str(),
            ),
            Error::Ambiguous(s) => String::from_str("Ambiguity error; ").concat(s.as_str()),
            Error::NotFound(s) => String::from_str("Not found; ").concat(s.as_str()),
            Error::Timeout => String::from_str("Timeout"),
        }
    }
}

} // verus!
