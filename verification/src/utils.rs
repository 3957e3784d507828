//! Small helpers: comparing texts, and building the words of a command line.

use crate::strutils::views;
use vstd::prelude::*;

verus! {

/// Whether two texts hold the same characters.
pub fn same_text(a: &str, b: &str) -> (same: bool)
    ensures
        same == (a@ == b@),
{
    String::from_str(a) == String::from_str(b)
}

/// Appends a copy of `word` to the words of a command line.
pub fn push_word(words: &mut Vec<String>, word: &str)
    ensures
        views(final(words)@) == views(old(words)@).push(word@),
{
    words.push(String::from_str(word));
    assert(views(words@) =~= views(old(words)@).push(word@));
}

} // verus!
