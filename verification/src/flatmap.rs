//! The flat map: the keys and values of a machine's description, one value per key.

use crate::keyval::{
    all_plain, bare_bare, bare_quoted, decode_chars, decoded, is_plain, lemma_decoded,
    quoted_quoted, spells,
};
use crate::strutils::{
    lemma_trimmed_behind, lemma_trimmed_is_a_beginning, lemma_trimmed_stays, to_chars, trim_end,
    trimmed, views, white_space,
};
use vstd::hash_map::StringHashMap;
use vstd::prelude::*;

verus! {

/// What a flat map holds, as mathematical data: the characters of each value by the
/// characters of its key.
pub type Pairs = Map<Seq<char>, Seq<char>>;

/// The map that a list of lines builds up: each line is trimmed at its end and decoded, a line
/// that spells a pair sets the value of its key, and a line that spells none changes nothing.
/// A key that comes twice keeps its later value.
pub open spec fn collected(lines: Seq<Seq<char>>) -> Pairs
    decreases lines.len(),
{
    if lines.len() == 0 {
        Map::empty()
    } else {
        let before = collected(lines.drop_last());
        match decoded(trimmed(lines.last())) {
            Some((key, value)) => before.insert(key, value),
            None => before,
        }
    }
}

/// Whether a line, trimmed at its end, spells no pair.
pub open spec fn unreadable(line: Seq<char>) -> bool {
    decoded(trimmed(line)) is None
}

/// The lines that spell no pair, in their order.
pub open spec fn ignored(lines: Seq<Seq<char>>) -> Seq<Seq<char>> {
    lines.filter(|line: Seq<char>| unreadable(line))
}

/// Whether a line, trimmed at its end, spells a pair with the given key.
pub open spec fn sets(line: Seq<char>, key: Seq<char>) -> bool {
    match decoded(trimmed(line)) {
        Some((found, _)) => found == key,
        None => false,
    }
}

/// The value of the pair that a line, trimmed at its end, spells.
pub open spec fn value_in(line: Seq<char>) -> Seq<char> {
    match decoded(trimmed(line)) {
        Some((_, value)) => value,
        None => Seq::empty(),
    }
}

/// A line written as `key="value"` or as `"key"="value"` sets the value of its key to
/// exactly what stands between the quotes: trimming takes nothing from such a line, and the
/// decoder keeps no quote.
pub proof fn lemma_quoted_line_sets(line: Seq<char>, key: Seq<char>, value: Seq<char>)
    requires
        key.len() > 0,
        all_plain(key),
        all_plain(value),
        line == bare_quoted(key, value) || line == quoted_quoted(key, value),
    ensures
        trimmed(line) == line,
        sets(line, key),
        value_in(line) == value,
{
    assert(line.last() == '"');
    lemma_trimmed_stays(line);
    lemma_decoded(line, key, value);
}

/// A line written as `key=value` sets the value of its key to the value without the white
/// space at its end, since a line is trimmed before it is decoded.
pub proof fn lemma_bare_line_sets(line: Seq<char>, key: Seq<char>, value: Seq<char>)
    requires
        key.len() > 0,
        all_plain(key),
        all_plain(value),
        line == bare_bare(key, value),
    ensures
        trimmed(line) == bare_bare(key, trimmed(value)),
        sets(line, key),
        value_in(line) == trimmed(value),
{
    let head = key + seq!['='];
    assert(head.last() == '=');
    lemma_trimmed_behind(head, value);
    lemma_trimmed_is_a_beginning(value);
    let kept = trimmed(value);
    assert forall|i: int| 0 <= i < kept.len() implies is_plain(#[trigger] kept[i]) by {
        assert(kept[i] == value.take(kept.len() as int)[i]);
        assert(is_plain(value[i]));
    }
    assert(bare_bare(key, kept) =~= head + kept);
    assert(line =~= head + value);
    lemma_decoded(trimmed(line), key, kept);
}

/// What a map holds for a line that spells a pair. Where the line ends in no white space
/// and no later line spells the same key, the map holds exactly the value that the line
/// spells for its key, and neither of them holds a quote or an equals sign.
pub proof fn lemma_collected_reads(
    lines: Seq<Seq<char>>,
    i: int,
    key: Seq<char>,
    value: Seq<char>,
)
    requires
        0 <= i < lines.len(),
        spells(lines[i], key, value),
        !white_space(lines[i].last()),
        forall|j: int| i < j < lines.len() ==> !sets(#[trigger] lines[j], key),
    ensures
        collected(lines).contains_key(key),
        collected(lines)[key] == value,
        all_plain(key),
        all_plain(value),
{
    lemma_trimmed_stays(lines[i]);
    lemma_decoded(lines[i], key, value);
    lemma_collected_value(lines, key, i);
}

/// What a map holds for a line with a quoted value. Where a line is written as
/// `key="value"` or as `"key"="value"` and no later line spells the same key, the map holds
/// for the key exactly what stands between the quotes of the value.
pub proof fn lemma_collected_reads_quoted(
    lines: Seq<Seq<char>>,
    i: int,
    key: Seq<char>,
    value: Seq<char>,
)
    requires
        0 <= i < lines.len(),
        key.len() > 0,
        all_plain(key),
        all_plain(value),
        lines[i] == bare_quoted(key, value) || lines[i] == quoted_quoted(key, value),
        forall|j: int| i < j < lines.len() ==> !sets(#[trigger] lines[j], key),
    ensures
        collected(lines).contains_key(key),
        collected(lines)[key] == value,
{
    lemma_quoted_line_sets(lines[i], key, value);
    lemma_collected_value(lines, key, i);
}

/// No quote and no equals sign comes into a collected map: every key is plain and not empty,
/// and every value is plain.
pub proof fn lemma_collected_is_plain(lines: Seq<Seq<char>>, key: Seq<char>)
    requires
        collected(lines).contains_key(key),
    ensures
        key.len() > 0,
        all_plain(key),
        all_plain(collected(lines)[key]),
    decreases lines.len(),
{
    if lines.len() > 0 {
        let last = trimmed(lines.last());
        match decoded(last) {
            Some((found, value)) => {
                let (k, v) = choose|k: Seq<char>, v: Seq<char>| spells(last, k, v);
                assert(spells(last, (k, v).0, (k, v).1));
                let pair = choose|pair: (Seq<char>, Seq<char>)| spells(last, pair.0, pair.1);
                assert(pair == (found, value));
                assert(spells(last, found, value));
                if found != key {
                    lemma_collected_is_plain(lines.drop_last(), key);
                }
            },
            None => {
                lemma_collected_is_plain(lines.drop_last(), key);
            },
        }
    }
}

/// Which keys a collected map holds: those that some line spells.
pub proof fn lemma_collected_keys(lines: Seq<Seq<char>>, key: Seq<char>)
    ensures
        collected(lines).contains_key(key) <==> exists|i: int|
            0 <= i < lines.len() && sets(#[trigger] lines[i], key),
    decreases lines.len(),
{
    if lines.len() > 0 {
        let shorter = lines.drop_last();
        let last = lines.len() - 1;
        lemma_collected_keys(shorter, key);
        if collected(lines).contains_key(key) {
            if sets(lines[last], key) {
            } else {
                assert(collected(shorter).contains_key(key));
                let i = choose|i: int| 0 <= i < shorter.len() && sets(#[trigger] shorter[i], key);
                assert(sets(lines[i], key));
            }
        }
        if exists|i: int| 0 <= i < lines.len() && sets(#[trigger] lines[i], key) {
            let i = choose|i: int| 0 <= i < lines.len() && sets(#[trigger] lines[i], key);
            if i < last {
                assert(sets(shorter[i], key));
            }
        }
    }
}

/// Which value a collected map holds for a key: that of the last line that spells the key.
pub proof fn lemma_collected_value(lines: Seq<Seq<char>>, key: Seq<char>, i: int)
    requires
        0 <= i < lines.len(),
        sets(lines[i], key),
        forall|j: int| i < j < lines.len() ==> !sets(#[trigger] lines[j], key),
    ensures
        collected(lines).contains_key(key),
        collected(lines)[key] == value_in(lines[i]),
    decreases lines.len(),
{
    let shorter = lines.drop_last();
    let last = lines.len() - 1;
    if i < last {
        assert(shorter[i] == lines[i]);
        assert forall|j: int| i < j < shorter.len() implies !sets(#[trigger] shorter[j], key) by {
            assert(shorter[j] == lines[j]);
        }
        lemma_collected_value(shorter, key, i);
        assert(!sets(lines[last], key));
    }
}

/// A mapping from string keys to string values in which a later value for a key replaces the
/// earlier one.
///
/// Its view is the mathematical map from the characters of each key to the characters of its
/// value. The map also remembers its keys in the order in which they first came.
pub struct FlatMap {
    entries: StringHashMap<String>,
    keys: Vec<String>,
}

impl View for FlatMap {
    type V = Map<Seq<char>, Seq<char>>;

    closed spec fn view(&self) -> Pairs {
        self.entries@.map_values(|value: String| value@)
    }
}

impl FlatMap {
    #[verifier::type_invariant]
    closed spec fn lists_its_keys(&self) -> bool {
        &&& views(self.keys@).no_duplicates()
        &&& views(self.keys@).to_set() == self.entries@.dom()
    }

    /// A map without entries.
    pub fn new() -> (map: FlatMap)
        ensures
            map@ == Map::<Seq<char>, Seq<char>>::empty(),
    {
        let entries: StringHashMap<String> = StringHashMap::new();
        let keys: Vec<String> = Vec::new();
        assert(views(keys@) =~= Seq::empty());
        assert(views(keys@).to_set() =~= entries@.dom());
        let map = FlatMap { entries, keys };
        assert(map@ =~= Map::<Seq<char>, Seq<char>>::empty());
        map
    }

    /// Sets the value of `key`, whether or not the key had one.
    pub fn insert(&mut self, key: String, value: String)
        ensures
            final(self)@ == old(self)@.insert(key@, value@),
    {
        let mut taken = FlatMap::new();
        core::mem::swap(self, &mut taken);
        proof {
            use_type_invariant(&taken);
        }
        let FlatMap { entries, keys } = taken;
        let mut entries = entries;
        let mut keys = keys;
        let ghost listed = views(keys@);
        if !entries.contains_key(key.as_str()) {
            keys.push(key.clone());
            proof {
                assert(views(keys@) =~= listed.push(key@));
                assert(views(keys@).to_set() =~= listed.to_set().insert(key@)) by {
                    assert forall|k: Seq<char>| listed.push(key@).contains(k) implies k == key@
                        || listed.contains(k) by {
                        let i = choose|i: int| 0 <= i < listed.push(key@).len() && listed.push(
                            key@,
                        )[i] == k;
                        if i < listed.len() {
                            assert(listed[i] == k);
                        }
                    }
                    assert(listed.push(key@)[listed.len() as int] == key@);
                    assert forall|k: Seq<char>| listed.contains(k) implies listed.push(
                        key@,
                    ).contains(k) by {
                        let i = choose|i: int| 0 <= i < listed.len() && listed[i] == k;
                        assert(listed.push(key@)[i] == k);
                    }
                }
                assert(!listed.contains(key@));
            }
        } else {
            proof {
                assert(listed.to_set().insert(key@) =~= listed.to_set());
            }
        }
        entries.insert(key, value);
        assert(views(keys@).to_set() =~= entries@.dom());
        *self = FlatMap { entries, keys };
        assert(self@ =~= old(self)@.insert(key@, value@));
    }

    /// The keys, each once, in the order in which they first came.
    pub fn keys(&self) -> (keys: &Vec<String>)
        ensures
            views(keys@).no_duplicates(),
            views(keys@).to_set() == self@.dom(),
    {
        proof {
            use_type_invariant(self);
            assert(self@.dom() =~= self.entries@.dom());
        }
        &self.keys
    }

    /// The value of `key`, if the key has one.
    pub fn get(&self, key: &str) -> (value: Option<&String>)
        ensures
            match value {
                Some(text) => self@.contains_key(key@) && text@ == self@[key@],
                None => !self@.contains_key(key@),
            },
    {
        self.entries.get(key)
    }

    /// Whether `key` has a value.
    pub fn contains_key(&self, key: &str) -> (found: bool)
        ensures
            found == self@.contains_key(key@),
    {
        self.entries.contains_key(key)
    }

    /// Builds the map of a list of lines, and lists the lines that spell no pair.
    pub fn from_lines(lines: &Vec<String>) -> (r: (FlatMap, Vec<String>))
        ensures
            r.0@ == collected(views(lines@)),
            views(r.1@) == ignored(views(lines@)),
    {
        let ghost unread = |line: Seq<char>| unreadable(line);
        let mut map = FlatMap::new();
        let mut rest: Vec<String> = Vec::new();
        let mut i: usize = 0;
        while i < lines.len()
            invariant
                i <= lines.len(),
                unread == |line: Seq<char>| unreadable(line),
                map@ == collected(views(lines@).take(i as int)),
                views(rest@) == views(lines@).take(i as int).filter(unread),
            decreases lines.len() - i,
        {
            let ghost seen = views(lines@).take(i as int);
            let ghost next = views(lines@).take(i + 1);
            let mut chars = to_chars(lines[i].as_str());
            trim_end(&mut chars);
            proof {
                assert(next.drop_last() == seen);
                assert(next.last() == lines[i as int]@);
                seen.lemma_filter_push(lines[i as int]@, unread);
                assert(next == seen.push(lines[i as int]@));
            }
            match decode_chars(&chars) {
                Some((key, value)) => {
                    map.insert(key, value);
                },
                None => {
                    let ghost before = rest@;
                    rest.push(lines[i].clone());
                    assert(views(rest@) == views(before).push(lines[i as int]@));
                },
            }
            i += 1;
        }
        assert(views(lines@).take(lines.len() as int) == views(lines@));
        (map, rest)
    }

    /// The number of keys.
    pub fn len(&self) -> (count: usize)
        ensures
            count == self@.dom().len(),
            self@.dom().finite(),
    {
        proof {
            use_type_invariant(self);
            assert(self@.dom() =~= self.entries@.dom());
            views(self.keys@).unique_seq_to_set();
        }
        self.keys.len()
    }
}

} // verus!
