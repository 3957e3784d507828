//! Unique identifiers: 128-bit values, read from text and written in the hyphenated form.

use vstd::prelude::*;

verus! {

/// What `uuid::Uuid::parse_str` reads from a text: the identifier as a number whose highest
/// byte is the first byte of the identifier, or `None` where the text is refused.
pub uninterp spec fn uuid_parse_str(text: Seq<char>) -> Option<u128>;

/// What each text is read as: an identifier, or `None` for a text that is refused.
pub type Reading = spec_fn(Seq<char>) -> Option<u128>;

/// A way of reading identifiers from text.
///
/// The walk that rebuilds a snapshot tree works with any way of reading; `Uuids` is the one
/// that this library uses.
pub trait Identifiers {
    /// The identifier that a text is read as, or `None` for a text that is refused.
    spec fn reading(&self, text: Seq<char>) -> Option<u128>;

    /// Reads an identifier from a text.
    fn read(&self, text: &str) -> (id: Option<u128>)
        ensures
            id == self.reading(text@),
    ;
}

/// The way of reading identifiers of the `uuid` crate: hyphenated or not, in either case of
/// letters.
pub struct Uuids;

impl Identifiers for Uuids {
    open spec fn reading(&self, text: Seq<char>) -> Option<u128> {
        uuid_parse_str(text)
    }

    fn read(&self, text: &str) -> (id: Option<u128>) {
        parse_uuid(text)
    }
}

/// The readings of a reader, as a function of the text.
pub open spec fn readings<R: Identifiers>(reader: &R) -> Reading {
    |text: Seq<char>| reader.reading(text)
}

/// The lower-case character for one hexadecimal digit.
pub open spec fn hex_char(d: nat) -> char {
    if d < 10 {
        crate::branch::digit_char(d)
    } else if d == 10 {
        'a'
    } else if d == 11 {
        'b'
    } else if d == 12 {
        'c'
    } else if d == 13 {
        'd'
    } else if d == 14 {
        'e'
    } else {
        'f'
    }
}

/// The lowest `count` hexadecimal digits of `value`, highest first.
pub open spec fn hex_digits(value: nat, count: nat) -> Seq<char>
    decreases count,
{
    if count == 0 {
        Seq::empty()
    } else {
        hex_digits(value / 16, (count - 1) as nat).push(hex_char(value % 16))
    }
}

/// The hyphenated lower-case form of an identifier: its 32 hexadecimal digits in groups of
/// 8, 4, 4, 4 and 12.
pub open spec fn hyphenated(id: u128) -> Seq<char> {
    let digits = hex_digits(id as nat, 32);
    digits.subrange(0, 8) + seq!['-'] + digits.subrange(8, 12) + seq!['-'] + digits.subrange(
        12,
        16,
    ) + seq!['-'] + digits.subrange(16, 20) + seq!['-'] + digits.subrange(20, 32)
}

/// Calls `uuid::Uuid::parse_str` and hands back the identifier's 128-bit value
/// (`Uuid::as_u128`); the contract names that result and claims no more of it.
#[verifier::external_body]
pub(crate) fn parse_uuid(text: &str) -> (id: Option<u128>)
    ensures
        id == uuid_parse_str(text@),
{
    match uuid::Uuid::parse_str(text) {
        Ok(id) => Some(id.as_u128()),
        Err(_) => None,
    }
}

/// Calls `Hyphenated::encode_lower` on the identifier with the given 128-bit value
/// (`Uuid::from_u128`). The contract claims that the text is the 32 lower-case hexadecimal
/// digits of the value, highest first, with a `-` after the 8th, 12th, 16th and 20th.
#[verifier::external_body]
pub(crate) fn uuid_hyphenated(id: u128) -> (text: String)
    ensures
        text@ == hyphenated(id),
{
    uuid::Uuid::from_u128(id).to_hyphenated().encode_lower(
        &mut uuid::Uuid::encode_buffer(),
    ).to_string()
}

} // verus!
