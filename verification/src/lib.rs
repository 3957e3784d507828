//! Structured views of what a virtual machine manager prints: the key/value lines of a machine's
//! description become a flat map, and the snapshot keys of that map become a tree.
//!
//! Nothing here starts a process or reads a file. Every function takes what the manager
//! printed, or what was read from it before, and states in its contract what it makes of it:
//!
//! - `strutils` decodes a buffer and cuts it into lines;
//! - `keyval` reads one line as a key and a value;
//! - `flatmap` collects the pairs of many lines in a map;
//! - `tree` says which snapshot tree a flat map describes, and `walk` rebuilds it;
//! - `snapshot` holds the tree and looks snapshots up in it;
//! - this module reads the list of machines and the description of one machine;
//! - `nics` reads the network adapters of a machine;
//! - `controlvm`, `storage` and `snapshot` put together the arguments of the manager's
//!   commands;
//! - `branch` and `ident` spell the positions in the tree and the identifiers.

pub mod branch;
pub mod controlvm;
pub mod err;
pub mod flatmap;
pub mod ident;
pub mod keyval;
pub mod nics;
pub mod platform;
pub mod snapshot;
pub mod storage;
pub mod strutils;
pub mod tree;
pub mod utils;
pub mod vmid;
pub mod walk;

pub use err::Error;
pub use vmid::VmId;

use crate::branch::{lemma_numbered_injective, numbered, numbered_key};
use crate::flatmap::{collected, FlatMap, Pairs};
use crate::ident::{parse_uuid, readings, uuid_parse_str, Uuids};
use crate::nics::{reads_nics, NICInfo};
use crate::snapshot::Snapshots;
use crate::strutils::{
    buf_to_strlines, is_encoding_error, substring, text_lines, to_chars, views, EmptyLine,
};
use crate::tree::rebuilds;
use crate::utils::same_text;
use crate::vmid::VmIdView;
use vstd::prelude::*;
use vstd::set_lib::{lemma_int_range, lemma_len_subset, lemma_map_size, set_int_range};
use vstd::utf8::{decode_utf8, valid_utf8};

verus! {

/// In what context a virtual machine is run.
#[derive(Clone, Copy, Debug, PartialEq, Eq, Structural)]
pub enum RunContext {
    /// The machine runs as an application on a desktop.
    GUI,
    /// The machine runs as a background process.
    Headless,
}

/// What to do when waiting for a machine runs out of time.
#[derive(Clone, Copy, Debug, PartialEq, Eq, Structural)]
pub enum TimeoutAction {
    /// Report the timeout as an error.
    Error,
    /// Switch the machine off.
    Kill,
}

/// The run states of a virtual machine.
#[derive(Clone, Copy, Debug, PartialEq, Eq, Structural)]
pub enum VmState {
    /// A state that this library does not know.
    Unknown,
    PowerOff,
    Starting,
    Running,
    Paused,
    Stopping,
}

/// The state that a word of the machine's description names.
pub open spec fn state_named(word: Seq<char>) -> VmState {
    if word == "poweroff"@ {
        VmState::PowerOff
    } else if word == "starting"@ {
        VmState::Starting
    } else if word == "running"@ {
        VmState::Running
    } else if word == "paused"@ {
        VmState::Paused
    } else if word == "stopping"@ {
        VmState::Stopping
    } else {
        VmState::Unknown
    }
}

impl VmState {
    /// The state that a word names; `Unknown` for any other word.
    pub fn from(word: &str) -> (state: VmState)
        ensures
            state == state_named(word@),
    {
        if same_text(word, "poweroff") {
            VmState::PowerOff
        } else if same_text(word, "starting") {
            VmState::Starting
        } else if same_text(word, "running") {
            VmState::Running
        } else if same_text(word, "paused") {
            VmState::Paused
        } else if same_text(word, "stopping") {
            VmState::Stopping
        } else {
            VmState::Unknown
        }
    }
}

/// The index of the last `c` in `line`, or -1 where `line` holds none.
pub open spec fn last_index_of(line: Seq<char>, c: char) -> int
    decreases line.len(),
{
    if line.len() == 0 {
        -1
    } else if line.last() == c {
        line.len() - 1
    } else {
        last_index_of(line.drop_last(), c)
    }
}

/// The name and the text of the identifier in a line of the list of machines. Such a line
/// begins with a quote; the name runs from there to the last quote, and the identifier stands
/// between the last `{` and the last `}`. A line of another shape holds neither.
pub open spec fn vm_fields(line: Seq<char>) -> Option<(Seq<char>, Seq<char>)> {
    let quote = last_index_of(line, '"');
    let open = last_index_of(line, '{');
    let close = last_index_of(line, '}');
    if line.len() > 0 && line[0] == '"' && quote > 0 && open > 0 && close > 0 && open < close {
        Some((line.subrange(1, quote), line.subrange(open + 1, close)))
    } else {
        None
    }
}

/// The machine that a line of the list of machines names: the name in the line, and the
/// identifier that its text is read as. A line of another shape, or with an identifier
/// that does not parse, names no machine.
pub open spec fn vm_entry(line: Seq<char>) -> Option<(Seq<char>, u128)> {
    match vm_fields(line) {
        Some((name, text)) => match uuid_parse_str(text) {
            Some(id) => Some((name, id)),
            None => None,
        },
        None => None,
    }
}

/// The machines that the lines of a list name, in the order of the lines.
pub open spec fn vm_entries(lines: Seq<Seq<char>>) -> Seq<(Seq<char>, u128)>
    decreases lines.len(),
{
    if lines.len() == 0 {
        Seq::empty()
    } else {
        match vm_entry(lines.last()) {
            Some(entry) => vm_entries(lines.drop_last()).push(entry),
            None => vm_entries(lines.drop_last()),
        }
    }
}

/// The names and identifiers of a list of machines as mathematical data.
pub open spec fn entry_views(list: Seq<(String, u128)>) -> Seq<(Seq<char>, u128)> {
    list.map_values(|entry: (String, u128)| (entry.0@, entry.1))
}

/// The index of the last `c` among `chars`.
fn last_index(chars: &Vec<char>, c: char) -> (found: Option<usize>)
    ensures
        match found {
            Some(i) => i == last_index_of(chars@, c) && i < chars.len(),
            None => last_index_of(chars@, c) == -1,
        },
{
    let mut i: usize = chars.len();
    assert(chars@.take(i as int) == chars@);
    while i > 0
        invariant
            i <= chars.len(),
            last_index_of(chars@, c) == last_index_of(chars@.take(i as int), c),
        decreases i,
    {
        if chars[i - 1] == c {
            return Some(i - 1);
        }
        assert(chars@.take(i as int).drop_last() == chars@.take(i - 1));
        i -= 1;
    }
    None
}

/// Cuts a line of the list of machines into the name and the text of the identifier.
pub fn split_vm_line(chars: &Vec<char>) -> (fields: Option<(String, String)>)
    ensures
        crate::keyval::pair_view(fields) == vm_fields(chars@),
{
    if chars.len() == 0 || chars[0] != '"' {
        return None;
    }
    let quote = match last_index(chars, '"') {
        Some(quote) => quote,
        None => {
            return None;
        },
    };
    let open = match last_index(chars, '{') {
        Some(open) => open,
        None => {
            return None;
        },
    };
    let close = match last_index(chars, '}') {
        Some(close) => close,
        None => {
            return None;
        },
    };
    if quote == 0 || open == 0 || close == 0 || open >= close {
        return None;
    }
    Some((substring(chars, 1, quote), substring(chars, open + 1, close)))
}

/// Reads the list of machines, as the manager prints it: one machine to a line, its name
/// between quotes and its identifier between braces.
///
/// Lines of another shape are passed over, and so are lines with an identifier that does not
/// parse. A buffer that is not valid UTF-8 is refused.
pub fn get_vm_list(buf: &Vec<u8>) -> (r: Result<Vec<(String, u128)>, Error>)
    ensures
        match r {
            Ok(list) => valid_utf8(buf@) && entry_views(list@) == vm_entries(
                text_lines(decode_utf8(buf@), EmptyLine::Ignore),
            ),
            Err(e) => !valid_utf8(buf@) && is_encoding_error(e),
        },
{
    let lines = match buf_to_strlines(buf, EmptyLine::Ignore) {
        Ok(lines) => lines,
        Err(e) => {
            return Err(e);
        },
    };
    let mut out: Vec<(String, u128)> = Vec::new();
    let mut i: usize = 0;
    assert(entry_views(out@) =~= Seq::empty());
    while i < lines.len()
        invariant
            i <= lines.len(),
            entry_views(out@) == vm_entries(views(lines@).take(i as int)),
        decreases lines.len() - i,
    {
        let ghost next = views(lines@).take(i + 1);
        assert(next.drop_last() == views(lines@).take(i as int));
        assert(next.last() == lines[i as int]@);
        let chars = to_chars(lines[i].as_str());
        i += 1;
        match split_vm_line(&chars) {
            Some((name, text)) => match parse_uuid(text.as_str()) {
                Some(id) => {
                    let ghost before = out@;
                    let ghost entry = (name@, id);
                    out.push((name, id));
                    assert(entry_views(out@) =~= entry_views(before).push(entry));
                },
                None => {},
            },
            None => {},
        }
    }
    assert(views(lines@).take(lines.len() as int) == views(lines@));
    Ok(out)
}

/// Whether a machine of the list answers to a designation: by its name, or by its identifier.
pub open spec fn answers(id: VmIdView, entry: (Seq<char>, u128)) -> bool {
    match id {
        VmIdView::Name(name) => entry.0 == name,
        VmIdView::Uuid(uuid) => entry.1 == uuid,
    }
}

/// Whether the list of machines holds one that answers to the designation.
pub fn have_vm(id: &VmId, list: &Vec<(String, u128)>) -> (found: bool)
    ensures
        found == exists|i: int| 0 <= i < list.len()
            && answers(id@, #[trigger] entry_views(list@)[i]),
{
    let mut i: usize = 0;
    while i < list.len()
        invariant
            i <= list.len(),
            forall|k: int| 0 <= k < i ==> !answers(id@, #[trigger] entry_views(list@)[k]),
        decreases list.len() - i,
    {
        let hit = match id {
            VmId::Name(name) => same_text(list[i].0.as_str(), name.as_str()),
            VmId::Uuid(uuid) => list[i].1 == *uuid,
        };
        assert(hit == answers(id@, entry_views(list@)[i as int]));
        if hit {
            return true;
        }
        i += 1;
    }
    false
}

/// Builds the flat map of a machine's description, as the manager prints it in
/// machine-readable form.
///
/// The buffer is cut into lines and empty lines are left out; each line is trimmed at its end
/// and decoded, and a line that spells no pair is passed over. A buffer that is not valid
/// UTF-8 is refused.
pub fn get_vm_info_map(buf: &Vec<u8>) -> (r: Result<FlatMap, Error>)
    ensures
        match r {
            Ok(map) => valid_utf8(buf@) && map@ == collected(
                text_lines(decode_utf8(buf@), EmptyLine::Ignore),
            ),
            Err(e) => !valid_utf8(buf@) && is_encoding_error(e),
        },
{
    match buf_to_strlines(buf, EmptyLine::Ignore) {
        Ok(lines) => Ok(FlatMap::from_lines(&lines).0),
        Err(e) => Err(e),
    }
}

/// What a machine's description says of the machine.
pub struct VmInfo {
    /// The shared folders: the path of each by its name.
    pub shares_map: FlatMap,
    /// The shared folders in the order of their numbers: name and path.
    pub shares_list: Vec<(String, String)>,
    pub state: VmState,
    pub snapshots: Option<Snapshots>,
    pub nics: Vec<NICInfo>,
}

/// The key of the name of shared folder number `n`.
pub open spec fn share_name_key(n: nat) -> Seq<char> {
    numbered("SharedFolderNameMachineMapping"@, n)
}

/// The key of the path of shared folder number `n`.
pub open spec fn share_path_key(n: nat) -> Seq<char> {
    numbered("SharedFolderPathMachineMapping"@, n)
}

/// Whether the map describes shared folder number `n`: it holds its name and its path.
pub open spec fn has_share(m: Pairs, n: nat) -> bool {
    m.contains_key(share_name_key(n)) && m.contains_key(share_path_key(n))
}

/// Whether `list` holds the shared folders of the map: those numbered from 1 up to the first
/// number that the map does not describe, each with its name and its path.
pub open spec fn shares_of(m: Pairs, list: Seq<(Seq<char>, Seq<char>)>) -> bool {
    &&& forall|j: nat|
        1 <= j <= list.len() ==> #[trigger] has_share(m, j) && list[j - 1] == (
            m[share_name_key(j)],
            m[share_path_key(j)],
        )
    &&& !has_share(m, list.len() + 1)
}

/// The map from names to paths that a list of shared folders gives; of two folders with one
/// name the later one stays.
pub open spec fn paths_by_name(list: Seq<(Seq<char>, Seq<char>)>) -> Pairs
    decreases list.len(),
{
    if list.len() == 0 {
        Map::empty()
    } else {
        paths_by_name(list.drop_last()).insert(list.last().0, list.last().1)
    }
}

/// The names and paths of a list of shared folders as mathematical data.
pub open spec fn share_views(list: Seq<(String, String)>) -> Seq<(Seq<char>, Seq<char>)> {
    list.map_values(|entry: (String, String)| (entry.0@, entry.1@))
}

/// The state that the map names under `VMState`; `Unknown` where it names none.
pub open spec fn state_of(m: Pairs) -> VmState {
    if m.contains_key("VMState"@) {
        state_named(m["VMState"@])
    } else {
        VmState::Unknown
    }
}

/// A map that describes the shared folders 1 to `n` has more than `n` keys.
proof fn lemma_share_count(m: Pairs, n: nat)
    requires
        m.dom().finite(),
        n >= 1,
        forall|j: nat| 1 <= j <= n ==> #[trigger] has_share(m, j),
    ensures
        n + 1 <= m.dom().len(),
{
    reveal_strlit("SharedFolderNameMachineMapping");
    reveal_strlit("SharedFolderPathMachineMapping");
    let f = |j: int|
        if j == 0 {
            share_path_key(1)
        } else {
            share_name_key(j as nat)
        };
    let numbers = set_int_range(0, n as int + 1);
    let keys = numbers.map(f);
    lemma_int_range(0, n as int + 1);
    assert forall|j1: int, j2: int|
        numbers.contains(j1) && numbers.contains(j2) && #[trigger] f(j1) == #[trigger] f(
            j2,
        ) implies j1 == j2 by {
        if j1 != 0 && j2 != 0 {
            lemma_numbered_injective("SharedFolderNameMachineMapping"@, j1 as nat, j2 as nat);
        } else if j1 != j2 {
            assert(share_path_key(1)[12] == 'P');
            if j1 == 0 {
                assert(share_name_key(j2 as nat)[12] == 'N');
            } else {
                assert(share_name_key(j1 as nat)[12] == 'N');
            }
        }
    }
    lemma_map_size(numbers, keys, f);
    assert forall|key: Seq<char>| keys.contains(key) implies m.dom().contains(key) by {
        let j = choose|j: int| numbers.contains(j) && f(j) == key;
        if j == 0 {
            assert(has_share(m, 1));
        } else {
            assert(has_share(m, j as nat));
        }
    }
    lemma_len_subset(keys, m.dom());
}

/// Reads what the flat map of a machine's description says of the machine: its shared
/// folders, its state, its snapshots and its network adapters.
///
/// The reading fails where the snapshots cannot be rebuilt, and else where a hardware address
/// does not parse.
pub fn get_vm_info(map: &FlatMap) -> (r: Result<VmInfo, Error>)
    ensures
        match r {
            Ok(info) => {
                &&& shares_of(map@, share_views(info.shares_list@))
                &&& info.shares_map@ == paths_by_name(share_views(info.shares_list@))
                &&& info.state == state_of(map@)
                &&& rebuilds(map@, readings(&Uuids), Ok(info.snapshots))
                &&& info.snapshots matches Some(tree) ==> tree.well_formed()
                &&& reads_nics(map@, Ok(info.nics))
            },
            Err(e) => rebuilds(map@, readings(&Uuids), Err(e)) || ((exists|tree: Option<Snapshots>|
                rebuilds(map@, readings(&Uuids), Ok(tree))) && reads_nics(map@, Err(e))),
        },
{
    let ghost m = map@;
    let total: usize = map.len();
    let mut shares_list: Vec<(String, String)> = Vec::new();
    let mut shares_map = FlatMap::new();
    let mut idx: usize = 1;
    assert(share_views(shares_list@) =~= Seq::empty());
    loop
        invariant
            m == map@,
            m.dom().finite(),
            total == m.dom().len(),
            1 <= idx,
            idx == 1 || idx <= total,
            shares_list.len() == idx - 1,
            shares_map@ == paths_by_name(share_views(shares_list@)),
            forall|j: nat|
                1 <= j < idx ==> #[trigger] has_share(m, j) && share_views(shares_list@)[j - 1] == (
                    m[share_name_key(j)],
                    m[share_path_key(j)],
                ),
        ensures
            !has_share(m, idx as nat),
        decreases total - idx,
    {
        let name = match map.get(numbered_key("SharedFolderNameMachineMapping", idx).as_str()) {
            Some(name) => name.clone(),
            None => {
                break ;
            },
        };
        let path = match map.get(numbered_key("SharedFolderPathMachineMapping", idx).as_str()) {
            Some(path) => path.clone(),
            None => {
                break ;
            },
        };
        proof {
            assert(has_share(m, idx as nat));
            lemma_share_count(m, idx as nat);
        }
        let ghost before = share_views(shares_list@);
        let ghost entry = (name@, path@);
        shares_map.insert(name.clone(), path.clone());
        shares_list.push((name, path));
        proof {
            assert(share_views(shares_list@) =~= before.push(entry));
            assert(share_views(shares_list@).drop_last() =~= before);
            assert(share_views(shares_list@).last() == entry);
            assert forall|j: nat| 1 <= j < idx + 1 implies #[trigger] has_share(m, j)
                && share_views(shares_list@)[j - 1] == (
                m[share_name_key(j)],
                m[share_path_key(j)],
            ) by {
                if j < idx {
                    assert(share_views(shares_list@)[j - 1] == before[j - 1]);
                }
            }
        }
        idx += 1;
    }
    let state = match map.get("VMState") {
        Some(word) => VmState::from(word.as_str()),
        None => VmState::Unknown,
    };
    let snapshots = match snapshot::get_from_map(map) {
        Ok(snapshots) => snapshots,
        Err(e) => {
            return Err(e);
        },
    };
    let nics = match nics::get_from_map(map) {
        Ok(nics) => nics,
        Err(e) => {
            assert(rebuilds(m, readings(&Uuids), Ok(snapshots)));
            return Err(e);
        },
    };
    Ok(VmInfo { shares_map, shares_list, state, snapshots, nics })
}

/// Whether the machine is in the given state.
pub fn is_vm_state(info: &VmInfo, state: VmState) -> (same: bool)
    ensures
        same == (info.state == state),
{
    info.state == state
}

/// The seconds to sleep between two looks at a machine that is being waited for.
pub const CROAK_POLL_SECS: u64 = 11;

/// What to do next while waiting for a machine to switch itself off.
#[derive(Clone, Copy, Debug, PartialEq, Eq, Structural)]
pub enum CroakStep {
    /// The machine is off: the wait is over.
    Done,
    /// Time is up: switch the machine off, and the wait is over.
    Kill,
    /// Sleep for this many seconds, then look again.
    Sleep(u64),
}

/// Decides one round of waiting for a machine to switch itself off.
///
/// `powered_off` says whether the machine was off at the last look, `elapsed` how many
/// nanoseconds the wait has lasted, and `timeout` the limit in nanoseconds with what to do
/// past it. A machine that is off ends the wait. Past the limit the wait fails with `Timeout`
/// or asks for the machine to be switched off. Otherwise it goes on after a sleep.
pub fn croak_step(
    powered_off: bool,
    elapsed: u128,
    timeout: Option<(u128, TimeoutAction)>,
) -> (r: Result<CroakStep, Error>)
    ensures
        match r {
            Ok(CroakStep::Done) => powered_off,
            Ok(CroakStep::Kill) => {
                &&& !powered_off
                &&& timeout matches Some((limit, action))
                &&& elapsed > limit
                &&& action == TimeoutAction::Kill
            },
            Ok(CroakStep::Sleep(secs)) => {
                &&& !powered_off
                &&& secs == CROAK_POLL_SECS
                &&& timeout matches Some((limit, _)) ==> elapsed <= limit
            },
            Err(e) => {
                &&& !powered_off
                &&& e is Timeout
                &&& timeout matches Some((limit, action))
                &&& elapsed > limit
                &&& action == TimeoutAction::Error
            },
        },
{
    if powered_off {
        return Ok(CroakStep::Done);
    }
    match timeout {
        Some((limit, action)) => {
            if elapsed > limit {
                match action {
                    TimeoutAction::Error => {
                        return Err(Error::Timeout);
                    },
                    TimeoutAction::Kill => {
                        return Ok(CroakStep::Kill);
                    },
                }
            }
        },
        None => {},
    }
    Ok(CroakStep::Sleep(CROAK_POLL_SECS))
}

} // verus!
