//! Text as sequences of characters: decoding a buffer, cutting it into lines, and moving between
//! strings and vectors of characters.

use crate::err::Error;
use vstd::prelude::*;
use vstd::utf8::{decode_utf8, valid_utf8};

verus! {

/// What to do with a line that holds no character.
#[derive(Clone, Copy, Debug, PartialEq, Eq, Structural)]
pub enum EmptyLine {
    /// Empty lines stay in the result.
    Keep,
    /// Empty lines are left out.
    Ignore,
}

/// `core::str::Utf8Error`, the error of `core::str::from_utf8`. The library looks at nothing
/// inside it.
#[verifier::external_type_specification]
#[verifier::external_body]
pub struct ExUtf8Error(core::str::Utf8Error);

/// `core::str::from_utf8` accepts exactly the byte sequences that are valid UTF-8, and the string
/// it gives back holds the characters that those bytes encode.
pub assume_specification[ core::str::from_utf8 ](bytes: &[u8]) -> (r: Result<
    &str,
    core::str::Utf8Error,
>)
    ensures
        r is Ok <==> valid_utf8(bytes@),
        r matches Ok(text) ==> text@ == decode_utf8(bytes@),
;

/// `String::push` appends one character.
pub assume_specification[ String::push ](s: &mut String, c: char)
    ensures
        final(s)@ == old(s)@.push(c),
;

/// Whether `char::is_whitespace` counts a character beyond ASCII as white space.
pub uninterp spec fn white_beyond_ascii(c: char) -> bool;

/// Whether a character is white space. Among the ASCII characters these are the space and
/// U+0009 to U+000D; beyond them it is what `char::is_whitespace` says.
pub open spec fn white_space(c: char) -> bool {
    if c <= '\x7f' {
        c == ' ' || ('\x09' <= c && c <= '\x0d')
    } else {
        white_beyond_ascii(c)
    }
}

/// `char::is_whitespace` depends on the character alone. Of an ASCII character it is true
/// exactly for the space and for U+0009 to U+000D; of any other character the contract
/// names its answer and claims no more of it.
pub assume_specification[ char::is_whitespace ](c: char) -> (white: bool)
    ensures
        c <= '\x7f' ==> white == (c == ' ' || ('\x09' <= c && c <= '\x0d')),
        c > '\x7f' ==> white == white_beyond_ascii(c),
        white == white_space(c),
;

/// A text without the white space at its end.
pub open spec fn trimmed(text: Seq<char>) -> Seq<char>
    decreases text.len(),
{
    if text.len() > 0 && white_space(text.last()) {
        trimmed(text.drop_last())
    } else {
        text
    }
}

/// A text that does not end in white space is trimmed already.
pub proof fn lemma_trimmed_stays(text: Seq<char>)
    requires
        text.len() == 0 || !white_space(text.last()),
    ensures
        trimmed(text) == text,
{
}

/// Trimming takes characters from the end only: what is left is the beginning of the text,
/// and it does not end in white space.
pub proof fn lemma_trimmed_is_a_beginning(text: Seq<char>)
    ensures
        trimmed(text).len() <= text.len(),
        trimmed(text) == text.take(trimmed(text).len() as int),
        trimmed(text).len() == 0 || !white_space(trimmed(text).last()),
    decreases text.len(),
{
    if text.len() > 0 && white_space(text.last()) {
        let shorter = text.drop_last();
        lemma_trimmed_is_a_beginning(shorter);
        assert(shorter.take(trimmed(shorter).len() as int) =~= text.take(
            trimmed(shorter).len() as int,
        ));
    } else {
        assert(text.take(text.len() as int) =~= text);
    }
}

/// Trimming stops at a character that is no white space: behind a text that ends in such a
/// character, only what follows is trimmed.
pub proof fn lemma_trimmed_behind(head: Seq<char>, tail: Seq<char>)
    requires
        head.len() > 0,
        !white_space(head.last()),
    ensures
        trimmed(head + tail) == head + trimmed(tail),
    decreases tail.len(),
{
    let text = head + tail;
    if tail.len() == 0 {
        assert(text =~= head);
        assert(head + trimmed(tail) =~= head);
    } else {
        assert(text.last() == tail.last());
        if white_space(tail.last()) {
            assert(text.drop_last() =~= head + tail.drop_last());
            lemma_trimmed_behind(head, tail.drop_last());
        }
    }
}

/// The characters of each string, in order.
pub open spec fn views(strings: Seq<String>) -> Seq<Seq<char>> {
    strings.map_values(|s: String| s@)
}

/// The pieces of `text` between its line feeds. A text without a line feed is one piece, and a
/// text that ends in a line feed has an empty last piece.
pub open spec fn split_lines(text: Seq<char>) -> Seq<Seq<char>>
    decreases text.len(),
{
    if text.len() == 0 {
        seq![Seq::empty()]
    } else {
        let before = split_lines(text.drop_last());
        if text.last() == '\n' {
            before.push(Seq::empty())
        } else {
            before.drop_last().push(before.last().push(text.last()))
        }
    }
}

/// The pieces put together again, with a line feed between neighbours.
pub open spec fn join_lines(lines: Seq<Seq<char>>) -> Seq<char>
    decreases lines.len(),
{
    if lines.len() == 0 {
        Seq::empty()
    } else if lines.len() == 1 {
        lines[0]
    } else {
        join_lines(lines.drop_last()) + seq!['\n'] + lines.last()
    }
}

/// Whether a line stays in the result under the given treatment of empty lines.
pub open spec fn stays(el: EmptyLine, line: Seq<char>) -> bool {
    el == EmptyLine::Keep || line.len() > 0
}

/// The lines of `text` that stay under the given treatment of empty lines.
pub open spec fn text_lines(text: Seq<char>, el: EmptyLine) -> Seq<Seq<char>> {
    split_lines(text).filter(|line: Seq<char>| stays(el, line))
}

/// Cutting a text into lines loses nothing: there is at least one piece, no piece holds a line
/// feed, and the pieces joined by line feeds are the text.
pub proof fn lemma_split_lines_joins(text: Seq<char>)
    ensures
        split_lines(text).len() >= 1,
        forall|i: int| 0 <= i < split_lines(text).len()
            ==> is_one_line(#[trigger] split_lines(text)[i]),
        join_lines(split_lines(text)) == text,
    decreases text.len(),
{
    if text.len() > 0 {
        let shorter = text.drop_last();
        lemma_split_lines_joins(shorter);
        let before = split_lines(shorter);
        let lines = split_lines(text);
        if text.last() == '\n' {
            assert(lines.drop_last() == before);
            if before.len() == 1 {
                assert(join_lines(before) == before[0]);
            }
            assert(join_lines(lines) == join_lines(before) + seq!['\n'] + Seq::<char>::empty());
            assert(join_lines(lines) == text);
        } else {
            let last = before.last().push(text.last());
            assert(lines.last() == last);
            assert(lines.drop_last() == before.drop_last());
            if before.len() == 1 {
                assert(join_lines(before) == before[0]);
                assert(join_lines(lines) == last);
            } else {
                assert(join_lines(lines) == join_lines(before.drop_last()) + seq!['\n'] + last);
                assert(join_lines(before) == join_lines(before.drop_last()) + seq!['\n']
                    + before.last());
            }
            assert(join_lines(lines) == join_lines(before).push(text.last()));
            assert(join_lines(lines) == text);
        }
    }
}

/// Whether a text holds no line feed.
pub open spec fn is_one_line(text: Seq<char>) -> bool {
    forall|j: int| 0 <= j < text.len() ==> #[trigger] text[j] != '\n'
}

/// A text followed by a line feed and a last line splits into the lines of the text and that
/// last line.
proof fn lemma_split_with_last_line(text: Seq<char>, last: Seq<char>)
    requires
        is_one_line(last),
    ensures
        split_lines(text + seq!['\n'] + last) == split_lines(text).push(last),
    decreases last.len(),
{
    let whole = text + seq!['\n'] + last;
    if last.len() == 0 {
        assert(whole.drop_last() =~= text);
        assert(last =~= Seq::empty());
    } else {
        let shorter = last.drop_last();
        assert(is_one_line(shorter)) by {
            assert forall|j: int| 0 <= j < shorter.len() implies #[trigger] shorter[j] != '\n' by {
                assert(shorter[j] == last[j]);
            }
        }
        lemma_split_with_last_line(text, shorter);
        assert(whole.drop_last() =~= text + seq!['\n'] + shorter);
        assert(whole.last() == last.last());
        let before = split_lines(text).push(shorter);
        assert(before.drop_last() =~= split_lines(text));
        assert(before.last().push(last.last()) =~= last);
    }
}

/// A text without a line feed is its own only line.
proof fn lemma_split_one_line(text: Seq<char>)
    requires
        is_one_line(text),
    ensures
        split_lines(text) == seq![text],
    decreases text.len(),
{
    if text.len() > 0 {
        let shorter = text.drop_last();
        assert(is_one_line(shorter)) by {
            assert forall|j: int| 0 <= j < shorter.len() implies #[trigger] shorter[j] != '\n' by {
                assert(shorter[j] == text[j]);
            }
        }
        lemma_split_one_line(shorter);
        let before = split_lines(shorter);
        assert(before.last() == shorter);
        assert(shorter.push(text.last()) =~= text);
        assert(before.drop_last().push(text) =~= seq![text]);
    } else {
        assert(text =~= Seq::empty());
    }
}

/// The lines of a text are the only way to cut it at its line feeds: a list of at least one
/// piece, none of which holds a line feed, that joins to the text is the list of its lines.
pub proof fn lemma_lines_are_the_split(text: Seq<char>, lines: Seq<Seq<char>>)
    requires
        lines.len() >= 1,
        forall|i: int| 0 <= i < lines.len() ==> is_one_line(#[trigger] lines[i]),
        join_lines(lines) == text,
    ensures
        lines == split_lines(text),
    decreases lines.len(),
{
    if lines.len() == 1 {
        lemma_split_one_line(lines[0]);
        assert(lines =~= seq![lines[0]]);
    } else {
        let front = lines.drop_last();
        assert forall|i: int| 0 <= i < front.len() implies is_one_line(#[trigger] front[i]) by {
            assert(front[i] == lines[i]);
        }
        lemma_lines_are_the_split(join_lines(front), front);
        lemma_split_with_last_line(join_lines(front), lines.last());
        assert(lines =~= front.push(lines.last()));
    }
}

/// The characters of a string, as a vector.
pub fn to_chars(text: &str) -> (chars: Vec<char>)
    ensures
        chars@ == text@,
{
    let mut chars: Vec<char> = Vec::new();
    for c in it: text.chars()
        invariant
            it.seq() == text@,
            chars@ == it.seq().take(it.index()),
    {
        chars.push(c);
    }
    chars
}

/// Removes the white space at the end of `chars`.
pub fn trim_end(chars: &mut Vec<char>)
    ensures
        final(chars)@ == trimmed(old(chars)@),
{
    while chars.len() > 0 && chars[chars.len() - 1].is_whitespace()
        invariant
            trimmed(chars@) == trimmed(old(chars)@),
        decreases chars.len(),
    {
        let ghost longer = chars@;
        chars.pop();
        assert(chars@ == longer.drop_last());
    }
}

/// The string made of the characters of `chars` from index `from` up to, not including, `to`.
pub fn substring(chars: &Vec<char>, from: usize, to: usize) -> (text: String)
    requires
        from <= to <= chars.len(),
    ensures
        text@ == chars@.subrange(from as int, to as int),
{
    let mut text = String::new();
    let mut i: usize = from;
    while i < to
        invariant
            from <= i <= to <= chars.len(),
            text@ == chars@.subrange(from as int, i as int),
        decreases to - i,
    {
        text.push(chars[i]);
        i += 1;
    }
    text
}

/// Whether `e` is the error for a buffer that is not valid UTF-8.
pub open spec fn is_encoding_error(e: Error) -> bool {
    e is Encoding && e.message() == "Buffer not UTF-8"@
}

/// Cuts a buffer of UTF-8 text into its lines, each line a string of its own.
///
/// The buffer is split at every line feed. With `EmptyLine::Ignore` the lines that hold no
/// character are left out. A buffer that is not valid UTF-8 is refused as a whole.
pub fn buf_to_strlines(buf: &Vec<u8>, el: EmptyLine) -> (r: Result<Vec<String>, Error>)
    ensures
        match r {
            Ok(lines) => valid_utf8(buf@) && views(lines@) == text_lines(decode_utf8(buf@), el),
            Err(e) => !valid_utf8(buf@) && is_encoding_error(e),
        },
{
    let text = match core::str::from_utf8(buf.as_slice()) {
        Ok(text) => text,
        Err(_) => {
            return Err(Error::Encoding(String::from_str("Buffer not UTF-8")));
        },
    };
    let ghost keep = |line: Seq<char>| stays(el, line);
    let mut out: Vec<String> = Vec::new();
    let mut cur = String::new();
    for c in it: text.chars()
        invariant
            it.seq() == text@,
            keep == |line: Seq<char>| stays(el, line),
            views(out@) == split_lines(it.seq().take(it.index())).drop_last().filter(keep),
            cur@ == split_lines(it.seq().take(it.index())).last(),
    {
        let ghost seen = it.seq().take(it.index());
        let ghost next = it.seq().take(it.index() + 1);
        proof {
            lemma_split_lines_joins(seen);
            assert(next.drop_last() == seen);
            assert(next.last() == c);
        }
        if c == '\n' {
            proof {
                assert(split_lines(next).drop_last() == split_lines(seen));
                assert(split_lines(seen) == split_lines(seen).drop_last().push(cur@));
                split_lines(seen).drop_last().lemma_filter_push(cur@, keep);
            }
            if el == EmptyLine::Keep || !cur.as_str().is_empty() {
                let ghost before = out@;
                out.push(cur);
                assert(views(out@) == views(before).push(cur@));
            }
            cur = String::new();
        } else {
            cur.push(c);
            proof {
                assert(split_lines(next).drop_last() == split_lines(seen).drop_last());
            }
        }
    }
    proof {
        let lines = split_lines(text@);
        assert(text@.take(text@.len() as int) == text@);
        lemma_split_lines_joins(text@);
        assert(lines == lines.drop_last().push(cur@));
        lines.drop_last().lemma_filter_push(cur@, keep);
    }
    if el == EmptyLine::Keep || !cur.as_str().is_empty() {
        let ghost before = out@;
        out.push(cur);
        assert(views(out@) == views(before).push(cur@));
    }
    Ok(out)
}

} // verus!
