//! The key/value decoder: one line of a machine's description, read as a key and a value.
//!
//! A line is written in one of three ways: `key="value"`, `"key"="value"` or `key=value`.
//! Keys and values hold neither `"` nor `=`, a key is not empty, a value may be.

use crate::strutils::{substring, to_chars};
use vstd::prelude::*;

verus! {

/// Whether a character may stand inside a key or a value.
pub open spec fn is_plain(c: char) -> bool {
    c != '"' && c != '='
}

/// Whether a text holds neither `"` nor `=`.
pub open spec fn all_plain(text: Seq<char>) -> bool {
    forall|i: int| 0 <= i < text.len() ==> is_plain(#[trigger] text[i])
}

/// The line `key="value"`.
pub open spec fn bare_quoted(key: Seq<char>, value: Seq<char>) -> Seq<char> {
    key + seq!['=', '"'] + value + seq!['"']
}

/// The line `"key"="value"`.
pub open spec fn quoted_quoted(key: Seq<char>, value: Seq<char>) -> Seq<char> {
    seq!['"'] + key + seq!['"', '=', '"'] + value + seq!['"']
}

/// The line `key=value`.
pub open spec fn bare_bare(key: Seq<char>, value: Seq<char>) -> Seq<char> {
    key + seq!['='] + value
}

/// Whether `line` spells the pair of `key` and `value` in one of the three ways.
pub open spec fn spells(line: Seq<char>, key: Seq<char>, value: Seq<char>) -> bool {
    &&& key.len() > 0
    &&& all_plain(key)
    &&& all_plain(value)
    &&& (line == bare_quoted(key, value) || line == quoted_quoted(key, value) || line == bare_bare(
        key,
        value,
    ))
}

/// The pair that a line spells, or `None` for a line that spells none.
pub open spec fn decoded(line: Seq<char>) -> Option<(Seq<char>, Seq<char>)> {
    if exists|key: Seq<char>, value: Seq<char>| spells(line, key, value) {
        Some(choose|pair: (Seq<char>, Seq<char>)| spells(line, pair.0, pair.1))
    } else {
        None
    }
}

/// The characters of a pair of strings.
pub open spec fn pair_view(pair: Option<(String, String)>) -> Option<(Seq<char>, Seq<char>)> {
    match pair {
        Some((key, value)) => Some((key@, value@)),
        None => None,
    }
}

/// Whether the characters of `line` from `from` up to, not including, `to` are all plain.
pub open spec fn plain_between(line: Seq<char>, from: int, to: int) -> bool {
    forall|i: int| from <= i < to ==> is_plain(#[trigger] line[i])
}

/// Where the parts of a line stand, for each of the three ways of writing it.
proof fn lemma_shapes(line: Seq<char>, key: Seq<char>, value: Seq<char>)
    requires
        spells(line, key, value),
    ensures
        line == bare_quoted(key, value) ==> {
            let k = key.len() as int;
            let n = line.len() as int;
            &&& n == k + value.len() + 3
            &&& plain_between(line, 0, k)
            &&& line[k] == '='
            &&& line[k + 1] == '"'
            &&& plain_between(line, k + 2, n - 1)
            &&& line[n - 1] == '"'
            &&& key == line.subrange(0, k)
            &&& value == line.subrange(k + 2, n - 1)
        },
        line == quoted_quoted(key, value) ==> {
            let k = key.len() as int;
            let n = line.len() as int;
            &&& n == k + value.len() + 5
            &&& line[0] == '"'
            &&& plain_between(line, 1, k + 1)
            &&& line[k + 1] == '"'
            &&& line[k + 2] == '='
            &&& line[k + 3] == '"'
            &&& plain_between(line, k + 4, n - 1)
            &&& line[n - 1] == '"'
            &&& key == line.subrange(1, k + 1)
            &&& value == line.subrange(k + 4, n - 1)
        },
        line == bare_bare(key, value) ==> {
            let k = key.len() as int;
            let n = line.len() as int;
            &&& n == k + value.len() + 1
            &&& plain_between(line, 0, k)
            &&& line[k] == '='
            &&& plain_between(line, k + 1, n)
            &&& key == line.subrange(0, k)
            &&& value == line.subrange(k + 1, n)
        },
{
    let k = key.len() as int;
    let n = line.len() as int;
    if line == bare_quoted(key, value) {
        assert forall|i: int| 0 <= i < k implies is_plain(#[trigger] line[i]) by {
            assert(line[i] == key[i]);
        }
        assert forall|i: int| k + 2 <= i < n - 1 implies is_plain(#[trigger] line[i]) by {
            assert(line[i] == value[i - k - 2]);
        }
        assert(key =~= line.subrange(0, k));
        assert(value =~= line.subrange(k + 2, n - 1));
    }
    if line == quoted_quoted(key, value) {
        assert forall|i: int| 1 <= i < k + 1 implies is_plain(#[trigger] line[i]) by {
            assert(line[i] == key[i - 1]);
        }
        assert forall|i: int| k + 4 <= i < n - 1 implies is_plain(#[trigger] line[i]) by {
            assert(line[i] == value[i - k - 4]);
        }
        assert(key =~= line.subrange(1, k + 1));
        assert(value =~= line.subrange(k + 4, n - 1));
    }
    if line == bare_bare(key, value) {
        assert forall|i: int| 0 <= i < k implies is_plain(#[trigger] line[i]) by {
            assert(line[i] == key[i]);
        }
        assert forall|i: int| k + 1 <= i < n implies is_plain(#[trigger] line[i]) by {
            assert(line[i] == value[i - k - 1]);
        }
        assert(key =~= line.subrange(0, k));
        assert(value =~= line.subrange(k + 1, n));
    }
}

/// A line spells at most one pair. The three ways of writing exclude one another, so it does
/// not matter in which order a decoder tries them.
pub proof fn lemma_spells_one(
    line: Seq<char>,
    key1: Seq<char>,
    value1: Seq<char>,
    key2: Seq<char>,
    value2: Seq<char>,
)
    requires
        spells(line, key1, value1),
        spells(line, key2, value2),
    ensures
        key1 == key2,
        value1 == value2,
{
    lemma_shapes(line, key1, value1);
    lemma_shapes(line, key2, value2);
    let k1 = key1.len() as int;
    let k2 = key2.len() as int;
    let n = line.len() as int;
    if line[0] == '"' {
        assert(!is_plain(line[0]));
        assert(line == quoted_quoted(key1, value1));
        assert(line == quoted_quoted(key2, value2));
        if k1 < k2 {
            assert(is_plain(line[k1 + 1]));
        }
        if k2 < k1 {
            assert(is_plain(line[k2 + 1]));
        }
    } else {
        if k1 < k2 {
            assert(is_plain(line[k1]));
        }
        if k2 < k1 {
            assert(is_plain(line[k2]));
        }
        assert(k1 == k2);
        if line == bare_quoted(key1, value1) && line == bare_bare(key2, value2) {
            assert(is_plain(line[k1 + 1]));
        }
        if line == bare_quoted(key2, value2) && line == bare_bare(key1, value1) {
            assert(is_plain(line[k1 + 1]));
        }
    }
}

/// The decoder gives back what was written: a line that spells a key and a value in one of
/// the three ways decodes to exactly that key and that value, neither of which holds a quote
/// or an equals sign.
pub proof fn lemma_decoded(line: Seq<char>, key: Seq<char>, value: Seq<char>)
    requires
        spells(line, key, value),
    ensures
        decoded(line) == Some((key, value)),
        all_plain(key),
        all_plain(value),
{
    let pair = choose|pair: (Seq<char>, Seq<char>)| spells(line, pair.0, pair.1);
    assert(spells(line, (key, value).0, (key, value).1));
    lemma_spells_one(line, key, value, pair.0, pair.1);
}

/// The end of the run of plain characters that starts at `from`.
spec fn run_end(line: Seq<char>, from: int) -> int
    decreases line.len() - from,
{
    if 0 <= from < line.len() && is_plain(line[from]) {
        run_end(line, from + 1)
    } else {
        from
    }
}

/// A run of plain characters that cannot go on ends where the scan says.
proof fn lemma_run_end(line: Seq<char>, from: int, to: int)
    requires
        0 <= from <= to <= line.len(),
        plain_between(line, from, to),
        to < line.len() ==> !is_plain(line[to]),
    ensures
        run_end(line, from) == to,
    decreases to - from,
{
    if from < to {
        assert(is_plain(line[from]));
        lemma_run_end(line, from + 1, to);
    }
}

/// The pair that a scan from left to right finds in a line: the key runs to the first
/// character that is not plain, the value to the last character or the closing quote.
spec fn scanned(line: Seq<char>) -> Option<(Seq<char>, Seq<char>)> {
    let n = line.len() as int;
    if n == 0 {
        None
    } else if line[0] == '"' {
        let k = run_end(line, 1);
        if 1 < k && k + 4 <= n && line[k] == '"' && line[k + 1] == '=' && line[k + 2] == '"'
            && run_end(line, k + 3) == n - 1 && line[n - 1] == '"' {
            Some((line.subrange(1, k), line.subrange(k + 3, n - 1)))
        } else {
            None
        }
    } else {
        let e = run_end(line, 0);
        if 1 <= e && e < n && line[e] == '=' {
            if e + 1 < n && line[e + 1] == '"' {
                if e + 2 < n && run_end(line, e + 2) == n - 1 && line[n - 1] == '"' {
                    Some((line.subrange(0, e), line.subrange(e + 2, n - 1)))
                } else {
                    None
                }
            } else if run_end(line, e + 1) == n {
                Some((line.subrange(0, e), line.subrange(e + 1, n)))
            } else {
                None
            }
        } else {
            None
        }
    }
}

/// The run of plain characters from `from` is plain, and stops at a character that is not.
proof fn lemma_run_is_plain(line: Seq<char>, from: int)
    requires
        0 <= from <= line.len(),
    ensures
        from <= run_end(line, from) <= line.len(),
        plain_between(line, from, run_end(line, from)),
        run_end(line, from) < line.len() ==> !is_plain(line[run_end(line, from)]),
    decreases line.len() - from,
{
    if from < line.len() && is_plain(line[from]) {
        lemma_run_is_plain(line, from + 1);
    }
}

/// What the scan finds is what the line spells.
proof fn lemma_scanned(line: Seq<char>)
    ensures
        decoded(line) == scanned(line),
{
    let n = line.len() as int;
    match scanned(line) {
        Some((key, value)) => {
            if line[0] == '"' {
                let k = run_end(line, 1);
                lemma_run_is_plain(line, 1);
                lemma_run_is_plain(line, k + 3);
                assert(line =~= quoted_quoted(key, value));
            } else {
                let e = run_end(line, 0);
                lemma_run_is_plain(line, 0);
                if e + 1 < n && line[e + 1] == '"' {
                    lemma_run_is_plain(line, e + 2);
                    assert(line =~= bare_quoted(key, value));
                } else {
                    lemma_run_is_plain(line, e + 1);
                    assert(line =~= bare_bare(key, value));
                }
            }
            assert(spells(line, key, value));
            lemma_decoded(line, key, value);
        },
        None => {
            assert forall|key: Seq<char>, value: Seq<char>| !spells(line, key, value) by {
                if spells(line, key, value) {
                    lemma_shapes(line, key, value);
                    let k = key.len() as int;
                    if line == quoted_quoted(key, value) {
                        lemma_run_end(line, 1, k + 1);
                        lemma_run_end(line, k + 4, n - 1);
                    } else if line == bare_quoted(key, value) {
                        assert(is_plain(line[0]));
                        lemma_run_end(line, 0, k);
                        lemma_run_end(line, k + 2, n - 1);
                    } else {
                        assert(is_plain(line[0]));
                        lemma_run_end(line, 0, k);
                        lemma_run_end(line, k + 1, n);
                        if k + 1 < n {
                            assert(is_plain(line[k + 1]));
                        }
                    }
                }
            }
        },
    }
}

/// The end of the run of plain characters that starts at `from`.
fn plain_end(chars: &Vec<char>, from: usize) -> (to: usize)
    requires
        from <= chars.len(),
    ensures
        to == run_end(chars@, from as int),
        from <= to <= chars.len(),
{
    let mut to = from;
    while to < chars.len() && chars[to] != '"' && chars[to] != '='
        invariant
            from <= to <= chars.len(),
            plain_between(chars@, from as int, to as int),
        decreases chars.len() - to,
    {
        to += 1;
    }
    proof {
        lemma_run_end(chars@, from as int, to as int);
    }
    to
}

/// Reads a key and a value from the characters of a line.
pub fn decode_chars(chars: &Vec<char>) -> (pair: Option<(String, String)>)
    ensures
        pair_view(pair) == decoded(chars@),
{
    proof {
        lemma_scanned(chars@);
    }
    let n: usize = chars.len();
    if n == 0 {
        return None;
    }
    if chars[0] == '"' {
        let k: usize = plain_end(chars, 1);
        if 1 < k && n >= 4 && k <= n - 4 && chars[k] == '"' && chars[k + 1] == '=' && chars[k + 2]
            == '"' {
            let v: usize = plain_end(chars, k + 3);
            if v == n - 1 && chars[v] == '"' {
                return Some((substring(chars, 1, k), substring(chars, k + 3, n - 1)));
            }
        }
        return None;
    }
    let e: usize = plain_end(chars, 0);
    if 1 <= e && e < n && chars[e] == '=' {
        if e + 1 < n && chars[e + 1] == '"' {
            if e + 2 < n {
                let v: usize = plain_end(chars, e + 2);
                if v == n - 1 && chars[v] == '"' {
                    return Some((substring(chars, 0, e), substring(chars, e + 2, n - 1)));
                }
            }
        } else {
            let v: usize = plain_end(chars, e + 1);
            if v == n {
                return Some((substring(chars, 0, e), substring(chars, e + 1, n)));
            }
        }
    }
    None
}

/// Reads a key and a value from a line. The line is taken as it is: nothing is trimmed.
pub fn decode_line(line: &str) -> (pair: Option<(String, String)>)
    ensures
        pair_view(pair) == decoded(line@),
{
    let chars = to_chars(line);
    decode_chars(&chars)
}

/// A quote, or nothing.
pub open spec fn quote_if(present: bool) -> Seq<char> {
    if present {
        seq!['"']
    } else {
        Seq::empty()
    }
}

/// The line that spells a pair with any of its four quotes present or absent.
pub open spec fn loose_line(
    key: Seq<char>,
    value: Seq<char>,
    a: bool,
    b: bool,
    c: bool,
    d: bool,
) -> Seq<char> {
    quote_if(a) + key + quote_if(b) + seq!['='] + quote_if(c) + value + quote_if(d)
}

/// Whether `line` spells the pair of `key` and `value` in the loose way: the key and the value
/// may each have a quote before them, after them, on both sides or on neither.
pub open spec fn spells_loosely(line: Seq<char>, key: Seq<char>, value: Seq<char>) -> bool {
    &&& key.len() > 0
    &&& all_plain(key)
    &&& all_plain(value)
    &&& exists|a: bool, b: bool, c: bool, d: bool| line
        == #[trigger] loose_line(key, value, a, b, c, d)
}

/// The pair that a line spells in the loose way, or `None` for a line that spells none.
pub open spec fn decoded_loosely(line: Seq<char>) -> Option<(Seq<char>, Seq<char>)> {
    if exists|key: Seq<char>, value: Seq<char>| spells_loosely(line, key, value) {
        Some(choose|pair: (Seq<char>, Seq<char>)| spells_loosely(line, pair.0, pair.1))
    } else {
        None
    }
}

/// One for a quote that is present, zero for one that is absent.
spec fn width(present: bool) -> int {
    if present {
        1
    } else {
        0
    }
}

/// The pair that a scan from left to right finds in a line read in the loose way.
spec fn scanned_loosely(line: Seq<char>) -> Option<(Seq<char>, Seq<char>)> {
    let n = line.len() as int;
    if n == 0 {
        None
    } else {
        let ks = width(line[0] == '"');
        let ke = run_end(line, ks);
        let e = ke + width(ke < n && line[ke] == '"');
        if ks < ke && e < n && line[e] == '=' {
            let vs = e + 1 + width(e + 1 < n && line[e + 1] == '"');
            let ve = run_end(line, vs);
            if ve == n {
                Some((line.subrange(ks, ke), line.subrange(vs, n)))
            } else if ve == n - 1 && line[ve] == '"' {
                Some((line.subrange(ks, ke), line.subrange(vs, n - 1)))
            } else {
                None
            }
        } else {
            None
        }
    }
}

/// Where the parts of a line stand when it spells a pair in the loose way.
proof fn lemma_loose_shape(
    line: Seq<char>,
    key: Seq<char>,
    value: Seq<char>,
    a: bool,
    b: bool,
    c: bool,
    d: bool,
)
    requires
        key.len() > 0,
        all_plain(key),
        all_plain(value),
        line == loose_line(key, value, a, b, c, d),
    ensures
        ({
            let ks = width(a);
            let ke = ks + key.len();
            let e = ke + width(b);
            let vs = e + 1 + width(c);
            let ve = vs + value.len();
            &&& line.len() == ve + width(d)
            &&& a ==> line[0] == '"'
            &&& plain_between(line, ks, ke)
            &&& b ==> line[ke] == '"'
            &&& line[e] == '='
            &&& c ==> line[e + 1] == '"'
            &&& plain_between(line, vs, ve)
            &&& d ==> line[ve] == '"'
            &&& key == line.subrange(ks, ke)
            &&& value == line.subrange(vs, ve)
        }),
{
    let ks = width(a);
    let ke = ks + key.len();
    let e = ke + width(b);
    let vs = e + 1 + width(c);
    let ve = vs + value.len();
    let front = quote_if(a) + key + quote_if(b) + seq!['='] + quote_if(c);
    assert(front.len() == vs);
    assert(line == front + value + quote_if(d));
    assert forall|i: int| ks <= i < ke implies is_plain(#[trigger] line[i]) by {
        assert(line[i] == key[i - ks]);
    }
    assert forall|i: int| vs <= i < ve implies is_plain(#[trigger] line[i]) by {
        assert(line[i] == value[i - vs]);
    }
    assert(key =~= line.subrange(ks, ke));
    assert(value =~= line.subrange(vs, ve));
}

/// The loose scan finds the pair that a line spells in the loose way.
proof fn lemma_loose_scan_finds(
    line: Seq<char>,
    key: Seq<char>,
    value: Seq<char>,
    a: bool,
    b: bool,
    c: bool,
    d: bool,
)
    requires
        key.len() > 0,
        all_plain(key),
        all_plain(value),
        line == loose_line(key, value, a, b, c, d),
    ensures
        scanned_loosely(line) == Some((key, value)),
{
    let n = line.len() as int;
    lemma_loose_shape(line, key, value, a, b, c, d);
    let ks = width(a);
    let ke = ks + key.len();
    let e = ke + width(b);
    let vs = e + 1 + width(c);
    let ve = vs + value.len();
    assert(is_plain(line[ks]));
    assert(width(line[0] == '"') == ks);
    lemma_run_end(line, ks, ke);
    assert(ke + width(ke < n && line[ke] == '"') == e);
    if !c && value.len() == 0 && d {
        lemma_run_end(line, vs + 1, n);
        assert(value =~= line.subrange(vs + 1, n));
    } else {
        if value.len() > 0 {
            assert(is_plain(line[vs]));
        }
        assert(e + 1 + width(e + 1 < n && line[e + 1] == '"') == vs);
        lemma_run_end(line, vs, ve);
    }
}

/// What the loose scan finds, the line spells in the loose way.
proof fn lemma_loose_scan_sound(line: Seq<char>)
    requires
        scanned_loosely(line) is Some,
    ensures
        scanned_loosely(line) matches Some((key, value)) && spells_loosely(line, key, value),
{
    let n = line.len() as int;
    let found = scanned_loosely(line)->0;
    let key = found.0;
    let value = found.1;
    let a = line[0] == '"';
    let ks = width(a);
    let ke = run_end(line, ks);
    let b = ke < n && line[ke] == '"';
    let e = ke + width(b);
    let c = e + 1 < n && line[e + 1] == '"';
    let vs = e + 1 + width(c);
    let ve = run_end(line, vs);
    let d = ve != n;
    lemma_run_is_plain(line, ks);
    lemma_run_is_plain(line, vs);
    assert(key == line.subrange(ks, ke));
    assert(value == line.subrange(vs, ve));
    let other = loose_line(key, value, a, b, c, d);
    lemma_loose_shape(other, key, value, a, b, c, d);
    assert(other.len() == n);
    assert forall|i: int| 0 <= i < n implies line[i] == other[i] by {
        if ks <= i < ke {
            assert(other[i] == other.subrange(ks, ke)[i - ks]);
            assert(line[i] == line.subrange(ks, ke)[i - ks]);
        } else if vs <= i < ve {
            assert(other[i] == other.subrange(vs, ve)[i - vs]);
            assert(line[i] == line.subrange(vs, ve)[i - vs]);
        }
    }
    assert(line =~= other);
}

/// What the loose scan finds is what the line spells in the loose way.
proof fn lemma_scanned_loosely(line: Seq<char>)
    ensures
        decoded_loosely(line) == scanned_loosely(line),
{
    if exists|key: Seq<char>, value: Seq<char>| spells_loosely(line, key, value) {
        let (key, value) = choose|key: Seq<char>, value: Seq<char>|
            spells_loosely(line, key, value);
        assert(spells_loosely(line, (key, value).0, (key, value).1));
        let pair = choose|pair: (Seq<char>, Seq<char>)| spells_loosely(line, pair.0, pair.1);
        let (a, b, c, d) = choose|a: bool, b: bool, c: bool, d: bool|
            line == #[trigger] loose_line(pair.0, pair.1, a, b, c, d);
        lemma_loose_scan_finds(line, pair.0, pair.1, a, b, c, d);
    } else if scanned_loosely(line) is Some {
        lemma_loose_scan_sound(line);
    }
}

/// The loose reading gives back what was written: a line that spells a key and a value with
/// any of the four quotes decodes to exactly that key and that value.
pub proof fn lemma_decoded_loosely(line: Seq<char>, key: Seq<char>, value: Seq<char>)
    requires
        spells_loosely(line, key, value),
    ensures
        decoded_loosely(line) == Some((key, value)),
{
    let (a, b, c, d) = choose|a: bool, b: bool, c: bool, d: bool|
        line == #[trigger] loose_line(key, value, a, b, c, d);
    lemma_loose_scan_finds(line, key, value, a, b, c, d);
    lemma_scanned_loosely(line);
}

/// Every line that spells a pair in one of the three strict ways spells the same pair in the
/// loose way.
pub proof fn lemma_strict_is_loose(line: Seq<char>, key: Seq<char>, value: Seq<char>)
    requires
        spells(line, key, value),
    ensures
        spells_loosely(line, key, value),
{
    if line == bare_quoted(key, value) {
        assert(line =~= loose_line(key, value, false, false, true, true));
    } else if line == quoted_quoted(key, value) {
        assert(line =~= loose_line(key, value, true, true, true, true));
    } else {
        assert(line =~= loose_line(key, value, false, false, false, false));
    }
}

/// Reads a key and a value from the characters of a line in the loose way.
pub fn decode_chars_loosely(chars: &Vec<char>) -> (pair: Option<(String, String)>)
    ensures
        pair_view(pair) == decoded_loosely(chars@),
{
    proof {
        lemma_scanned_loosely(chars@);
    }
    let n: usize = chars.len();
    if n == 0 {
        return None;
    }
    let ks: usize = if chars[0] == '"' {
        1
    } else {
        0
    };
    let ke: usize = plain_end(chars, ks);
    let e: usize = if ke < n && chars[ke] == '"' {
        ke + 1
    } else {
        ke
    };
    if ks < ke && e < n && chars[e] == '=' {
        let vs: usize = if e + 1 < n && chars[e + 1] == '"' {
            e + 2
        } else {
            e + 1
        };
        let ve: usize = plain_end(chars, vs);
        if ve == n {
            return Some((substring(chars, ks, ke), substring(chars, vs, n)));
        } else if ve == n - 1 && chars[ve] == '"' {
            return Some((substring(chars, ks, ke), substring(chars, vs, n - 1)));
        }
    }
    None
}

} // verus!
