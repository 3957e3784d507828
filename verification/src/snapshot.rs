//! The snapshots of a virtual machine: how they are designated, how they are looked up in
//! the tree, and the command lines that restore and delete them.

use crate::err::Error;
use crate::flatmap::{FlatMap, Pairs};
use crate::ident::{hyphenated, parse_uuid, uuid_hyphenated, uuid_parse_str};
use crate::keyval::{decode_chars_loosely, decoded_loosely};
use crate::strutils::{
    buf_to_strlines, is_encoding_error, text_lines, to_chars, views, EmptyLine,
};
use crate::utils::push_word;
use crate::vmid::VmId;
use std::collections::HashMap;
use vstd::prelude::*;
use vstd::std_specs::hash::spec_hash_map_iter;
use vstd::std_specs::iter::IteratorSpec;
use vstd::utf8::{decode_utf8, valid_utf8};

pub use crate::walk::get_from_map;

verus! {

/// How a caller names a snapshot: by its name, which several snapshots may share, or by its
/// unique identifier.
#[derive(Debug)]
pub enum SnapshotId {
    Name(String),
    Uuid(u128),
}

/// A snapshot's designation as mathematical data.
pub enum SnapshotIdView {
    Name(Seq<char>),
    Uuid(u128),
}

impl View for SnapshotId {
    type V = SnapshotIdView;

    open spec fn view(&self) -> SnapshotIdView {
        match self {
            SnapshotId::Name(name) => SnapshotIdView::Name(name@),
            SnapshotId::Uuid(id) => SnapshotIdView::Uuid(*id),
        }
    }
}

/// The designation that a text stands for: an identifier where the text parses as one, else a
/// name. A name that looks like an identifier is therefore taken for an identifier.
pub open spec fn designation(text: Seq<char>) -> SnapshotIdView {
    match uuid_parse_str(text) {
        Some(id) => SnapshotIdView::Uuid(id),
        None => SnapshotIdView::Name(text),
    }
}

impl SnapshotId {
    /// The text that designates the snapshot on a command line: the name itself, or the
    /// identifier in hyphenated form.
    pub open spec fn text(&self) -> Seq<char> {
        match self {
            SnapshotId::Name(name) => name@,
            SnapshotId::Uuid(id) => hyphenated(*id),
        }
    }

    /// The text that designates the snapshot on a command line.
    pub fn to_string(&self) -> (text: String)
        ensures
            text@ == self.text(),
    {
        match self {
            SnapshotId::Name(name) => name.clone(),
            SnapshotId::Uuid(id) => uuid_hyphenated(*id),
        }
    }

    /// The designation by the given name, whatever the name looks like.
    pub fn from(name: &str) -> (id: SnapshotId)
        ensures
            id@ == SnapshotIdView::Name(name@),
    {
        SnapshotId::Name(String::from_str(name))
    }

    /// The designation that a text stands for, given what the text is read as: the identifier
    /// where there is one, else the text as a name.
    pub fn from_reading(text: &str, reading: Option<u128>) -> (id: SnapshotId)
        ensures
            id@ == match reading {
                Some(uuid) => SnapshotIdView::Uuid(uuid),
                None => SnapshotIdView::Name(text@),
            },
    {
        match reading {
            Some(uuid) => SnapshotId::Uuid(uuid),
            None => SnapshotId::Name(String::from_str(text)),
        }
    }

    /// Reads a designation: an identifier where the text parses as one, else a name.
    pub fn from_str(text: &str) -> (r: Result<SnapshotId, Error>)
        ensures
            r matches Ok(id) && id@ == designation(text@),
    {
        Ok(SnapshotId::from_reading(text, parse_uuid(text)))
    }
}

impl core::str::FromStr for SnapshotId {
    type Err = Error;

    fn from_str(text: &str) -> (r: Result<SnapshotId, Error>)
        ensures
            r matches Ok(id) && id@ == designation(text@),
    {
        SnapshotId::from_str(text)
    }
}

/// One snapshot: a node of the tree.
#[derive(Debug)]
pub struct Snapshot {
    pub name: String,
    pub uuid: u128,
    pub desc: Vec<String>,
    pub children: Vec<u128>,
}

/// A snapshot as mathematical data.
pub struct SnapshotView {
    pub name: Seq<char>,
    pub uuid: u128,
    pub desc: Seq<Seq<char>>,
    pub children: Seq<u128>,
}

impl View for Snapshot {
    type V = SnapshotView;

    open spec fn view(&self) -> SnapshotView {
        SnapshotView {
            name: self.name@,
            uuid: self.uuid,
            desc: views(self.desc@),
            children: self.children@,
        }
    }
}

impl PartialEq for Snapshot {
    /// Two snapshots are the same snapshot if they have the same identifier.
    fn eq(&self, other: &Snapshot) -> (same: bool) {
        self.uuid == other.uuid
    }
}

impl Eq for Snapshot {

}

impl vstd::std_specs::cmp::PartialEqSpecImpl for Snapshot {
    open spec fn obeys_eq_spec() -> bool {
        true
    }

    open spec fn eq_spec(&self, other: &Snapshot) -> bool {
        self.uuid == other.uuid
    }
}

/// `u128::hash` feeds a number to a hasher; nothing is claimed of what the hasher makes of it.
pub assume_specification<H: core::hash::Hasher>[ <u128 as core::hash::Hash>::hash::<H> ](
    value: &u128,
    state: &mut H,
);

impl core::hash::Hash for Snapshot {
    /// A snapshot is hashed by its identifier alone, as it is compared.
    fn hash<H: core::hash::Hasher>(&self, state: &mut H) {
        self.uuid.hash(state);
    }
}

/// The snapshots of one machine: every node by its identifier, and the identifiers of the root
/// and of the current snapshot.
pub struct Snapshots {
    pub map: HashMap<u128, Snapshot>,
    pub root: u128,
    pub current: u128,
}

/// The identifiers under which `nodes` holds a snapshot of the given name.
pub open spec fn named(nodes: Map<u128, Snapshot>, name: Seq<char>) -> Set<u128> {
    nodes.dom().filter(|id: u128| nodes[id].name@ == name)
}

/// Whether `found` lists the nodes that `nodes` holds under the identifiers in `wanted`, each
/// of them once.
pub open spec fn lists(
    nodes: Map<u128, Snapshot>,
    wanted: Set<u128>,
    found: Seq<&Snapshot>,
) -> bool {
    exists|ids: Seq<u128>|
        {
            &&& ids.len() == found.len()
            &&& ids.no_duplicates()
            &&& ids.to_set() == wanted
            &&& forall|i: int| 0 <= i < ids.len() ==> *found[i] == nodes[#[trigger] ids[i]]
        }
}

/// The message of a lookup by name that matched nothing.
pub open spec fn no_snapshot_named(name: Seq<char>) -> Seq<char> {
    "The VM has no snapshot named '"@ + name + "'"@
}

/// The message of a lookup by name that matched more than once.
pub open spec fn many_snapshots_named(name: Seq<char>) -> Seq<char> {
    "The VM has multiple snapshots named '"@ + name + "'"@
}

impl Snapshots {
    /// Whether the tree holds what it refers to: each node under its own identifier, the
    /// root, the current snapshot, and every child of every node.
    pub open spec fn well_formed(&self) -> bool {
        &&& self.map@.contains_key(self.root)
        &&& self.map@.contains_key(self.current)
        &&& forall|id: u128| #[trigger] self.map@.contains_key(id) ==> self.map@[id].uuid == id
        &&& forall|id: u128, j: int|
            self.map@.contains_key(id) && 0 <= j < self.map@[id].children@.len()
                ==> self.map@.contains_key(#[trigger] self.map@[id].children@[j])
    }

    /// The root snapshot, if the tree holds a node under the root's identifier.
    pub fn get_root(&self) -> (node: Option<&Snapshot>)
        ensures
            match node {
                Some(node) => self.map@.contains_key(self.root) && *node == self.map@[self.root],
                None => !self.map@.contains_key(self.root),
            },
    {
        self.map.get(&self.root)
    }

    /// The current snapshot, if the tree holds a node under its identifier.
    pub fn get_current(&self) -> (node: Option<&Snapshot>)
        ensures
            match node {
                Some(node) => self.map@.contains_key(self.current) && *node
                    == self.map@[self.current],
                None => !self.map@.contains_key(self.current),
            },
    {
        self.map.get(&self.current)
    }

    /// The snapshot with the given identifier, if there is one.
    pub fn get_by_uuid(&self, uuid: &u128) -> (node: Option<&Snapshot>)
        ensures
            match node {
                Some(node) => self.map@.contains_key(*uuid) && *node == self.map@[*uuid],
                None => !self.map@.contains_key(*uuid),
            },
    {
        self.map.get(uuid)
    }

    /// All snapshots with the given name, each once, in no particular order.
    pub fn get_by_name(&self, name: &str) -> (found: Vec<&Snapshot>)
        ensures
            found.len() == named(self.map@, name@).len(),
            lists(self.map@, named(self.map@, name@), found@),
    {
        let wanted = String::from_str(name);
        let mut found: Vec<&Snapshot> = Vec::new();
        let ghost nodes = self.map@;
        let ghost mut ids: Seq<u128> = Seq::empty();
        let ghost mut at: Seq<int> = Seq::empty();
        for entry in it: self.map.iter()
            invariant
                nodes == self.map@,
                wanted@ == name@,
                it.seq() == spec_hash_map_iter(&self.map).remaining(),
                it.seq().no_duplicates(),
                ids.len() == found.len(),
                ids.len() == at.len(),
                ids.no_duplicates(),
                forall|i: int|
                    0 <= i < ids.len() ==> named(nodes, name@).contains(#[trigger] ids[i])
                        && *found[i] == nodes[ids[i]],
                forall|i: int|
                    0 <= i < ids.len() ==> 0 <= #[trigger] at[i] < it.index() && *it.seq()[at[i]].0
                        == ids[i],
                forall|j: int|
                    0 <= j < it.index() && nodes[*(#[trigger] it.seq()[j]).0].name@ == name@
                        ==> ids.contains(*it.seq()[j].0),
        {
            let (id, node) = entry;
            let ghost here = it.index() as int;
            let ghost earlier = ids;
            proof {
                assert(it.seq()[here] == entry);
                assert(nodes.contains_key(*id) && nodes[*id] == *node);
            }
            if node.name == wanted {
                found.push(node);
                proof {
                    assert forall|i: int| 0 <= i < ids.len() implies #[trigger] ids[i] != *id by {
                        if ids[i] == *id {
                            assert(it.seq()[at[i]] == it.seq()[here]);
                        }
                    }
                    ids = ids.push(*id);
                    at = at.push(here);
                    assert(ids[ids.len() - 1] == *id);
                }
            }
            proof {
                assert forall|j: int|
                    0 <= j < here + 1 && nodes[*(#[trigger] it.seq()[j]).0].name@
                        == name@ implies ids.contains(*it.seq()[j].0) by {
                    if j < here {
                        let i = choose|i: int| 0 <= i < earlier.len()
                            && earlier[i] == *it.seq()[j].0;
                        assert(ids[i] == *it.seq()[j].0);
                    } else {
                        assert(ids[ids.len() - 1] == *id);
                    }
                }
            }
        }
        proof {
            let all = spec_hash_map_iter(&self.map).remaining();
            assert forall|id: u128| named(nodes, name@).contains(id) implies ids.to_set().contains(
                id,
            ) by {
                assert(nodes.contains_key(id));
                assert(all.contains((&id, &nodes[id])));
                let j = choose|j: int| 0 <= j < all.len() && all[j] == (&id, &nodes[id]);
                assert(ids.contains(*all[j].0));
            }
            assert(ids.to_set() =~= named(nodes, name@));
            ids.unique_seq_to_set();
        }
        found
    }

    /// The one snapshot with the given name. The lookup fails with `NotFound` where no
    /// snapshot has the name, and with `Ambiguous` where more than one has it.
    pub fn get_unique_by_name(&self, name: &str) -> (r: Result<&Snapshot, Error>)
        ensures
            match r {
                Ok(node) => {
                    &&& named(self.map@, name@).len() == 1
                    &&& *node == self.map@[named(self.map@, name@).choose()]
                },
                Err(e) => {
                    ||| named(self.map@, name@).len() == 0 && e is NotFound && e.message()
                        == no_snapshot_named(name@)
                    ||| named(self.map@, name@).len() >= 2 && e is Ambiguous && e.message()
                        == many_snapshots_named(name@)
                },
            },
    {
        let found = self.get_by_name(name);
        if found.len() == 0 {
            Err(Error::NotFound(framed("The VM has no snapshot named '", name, "'")))
        } else if found.len() == 1 {
            proof {
                let wanted = named(self.map@, name@);
                let ids = choose|ids: Seq<u128>|
                    {
                        &&& ids.len() == found.len()
                        &&& ids.no_duplicates()
                        &&& ids.to_set() == wanted
                        &&& forall|i: int|
                            0 <= i < ids.len() ==> *found[i] == self.map@[#[trigger] ids[i]]
                    };
                assert(ids.to_set().contains(ids[0]));
                assert(wanted.contains(wanted.choose()));
                let k = choose|k: int| 0 <= k < ids.len() && ids[k] == wanted.choose();
                assert(ids[0] == wanted.choose());
            }
            Ok(found[0])
        } else {
            Err(Error::Ambiguous(framed("The VM has multiple snapshots named '", name, "'")))
        }
    }

    /// The snapshots that a designation stands for: all those of that name, or the one with
    /// that identifier if the tree holds it.
    pub fn get(&self, id: &SnapshotId) -> (found: Vec<&Snapshot>)
        ensures
            match id {
                SnapshotId::Name(name) => lists(self.map@, named(self.map@, name@), found@),
                SnapshotId::Uuid(uuid) => if self.map@.contains_key(*uuid) {
                    found@ == seq![&self.map@[*uuid]]
                } else {
                    found@ == Seq::<&Snapshot>::empty()
                },
            },
    {
        match id {
            SnapshotId::Name(name) => self.get_by_name(name.as_str()),
            SnapshotId::Uuid(uuid) => {
                let mut found: Vec<&Snapshot> = Vec::new();
                match self.get_by_uuid(uuid) {
                    Some(node) => {
                        found.push(node);
                        assert(found@ =~= seq![&self.map@[*uuid]]);
                    },
                    None => {},
                }
                found
            },
        }
    }
}

/// A message: `before`, then `text`, then `after`.
pub(crate) fn framed(before: &str, text: &str, after: &str) -> (message: String)
    ensures
        message@ == before@ + text@ + after@,
{
    String::from_str(before).concat(text).concat(after)
}

/// Whether a line of a snapshot list belongs to a description: it begins with `-`.
pub open spec fn is_description(line: Seq<char>) -> bool {
    line.len() > 0 && line[0] == '-'
}

/// The map that the lines of a snapshot list build up. Lines of a description are passed
/// over; every other line is read in the loose way, and a line that spells a pair sets the
/// value of its key.
pub open spec fn listed(lines: Seq<Seq<char>>) -> Pairs
    decreases lines.len(),
{
    if lines.len() == 0 {
        Map::empty()
    } else {
        let before = listed(lines.drop_last());
        if is_description(lines.last()) {
            before
        } else {
            match decoded_loosely(lines.last()) {
                Some((key, value)) => before.insert(key, value),
                None => before,
            }
        }
    }
}

/// Builds the flat map of a snapshot list, as the manager prints it in machine-readable form.
///
/// The buffer is cut into lines and empty lines are left out. A buffer that is not valid
/// UTF-8 is refused.
pub fn map(buf: &Vec<u8>) -> (r: Result<FlatMap, Error>)
    ensures
        match r {
            Ok(map) => valid_utf8(buf@) && map@ == listed(
                text_lines(decode_utf8(buf@), EmptyLine::Ignore),
            ),
            Err(e) => !valid_utf8(buf@) && is_encoding_error(e),
        },
{
    let lines = match buf_to_strlines(buf, EmptyLine::Ignore) {
        Ok(lines) => lines,
        Err(e) => {
            return Err(e);
        },
    };
    let mut map = FlatMap::new();
    let mut i: usize = 0;
    while i < lines.len()
        invariant
            i <= lines.len(),
            map@ == listed(views(lines@).take(i as int)),
        decreases lines.len() - i,
    {
        let ghost next = views(lines@).take(i + 1);
        assert(next.drop_last() == views(lines@).take(i as int));
        assert(next.last() == lines[i as int]@);
        let chars = to_chars(lines[i].as_str());
        if !(chars.len() > 0 && chars[0] == '-') {
            match decode_chars_loosely(&chars) {
                Some((key, value)) => {
                    map.insert(key, value);
                },
                None => {},
            }
        }
        i += 1;
    }
    assert(views(lines@).take(lines.len() as int) == views(lines@));
    Ok(map)
}

/// Whether restoring asks for the machine's snapshots first: it does where the snapshot is
/// designated by a name, which may be ambiguous.
pub fn restore_needs_snapshots(snap_id: &Option<SnapshotId>) -> (needed: bool)
    ensures
        needed == (snap_id matches Some(SnapshotId::Name(_))),
{
    match snap_id {
        Some(SnapshotId::Name(_)) => true,
        _ => false,
    }
}

/// The message of a restore by a name that several snapshots share.
pub open spec fn many_snapshots_of(vm: Seq<char>, name: Seq<char>) -> Seq<char> {
    "The VM '"@ + vm + "' has multiple snapshots named '"@ + name + "'"@
}

/// Decides whether a snapshot designated by name may be restored: it may not where the
/// machine has more than one snapshot of that name. A machine without snapshots passes.
pub fn restore_check(id: &VmId, name: &str, snaps: &Option<Snapshots>) -> (r: Result<(), Error>)
    ensures
        match r {
            Ok(_) => snaps matches Some(tree) ==> named(tree.map@, name@).len() <= 1,
            Err(e) => {
                &&& snaps matches Some(tree) && named(tree.map@, name@).len() > 1
                &&& e is Ambiguous
                &&& e.message() == many_snapshots_of(id.text(), name@)
            },
        },
{
    match snaps {
        Some(tree) => {
            if tree.get_by_name(name).len() > 1 {
                let message = framed(
                    "The VM '",
                    id.to_string().as_str(),
                    "' has multiple snapshots named '",
                ).concat(name).concat("'");
                return Err(Error::Ambiguous(message));
            }
        },
        None => {},
    }
    Ok(())
}

/// The arguments that restore a snapshot of a machine: `snapshot`, the machine, and then
/// `restore` and the snapshot, or `restorecurrent` where no snapshot is designated.
pub fn restore_args(id: &VmId, snap_id: &Option<SnapshotId>) -> (args: Vec<String>)
    ensures
        views(args@) == match snap_id {
            Some(snap) => seq!["snapshot"@, id.text(), "restore"@, snap.text()],
            None => seq!["snapshot"@, id.text(), "restorecurrent"@],
        },
{
    let mut args: Vec<String> = Vec::new();
    push_word(&mut args, "snapshot");
    push_word(&mut args, id.to_string().as_str());
    match snap_id {
        Some(snap) => {
            push_word(&mut args, "restore");
            push_word(&mut args, snap.to_string().as_str());
            assert(views(args@) =~= seq!["snapshot"@, id.text(), "restore"@, snap.text()]);
        },
        None => {
            push_word(&mut args, "restorecurrent");
            assert(views(args@) =~= seq!["snapshot"@, id.text(), "restorecurrent"@]);
        },
    }
    args
}

/// The arguments that delete a snapshot of a machine: `snapshot`, the machine, `delete` and
/// the snapshot.
pub fn delete_args(vm_id: &VmId, snap_id: &SnapshotId) -> (args: Vec<String>)
    ensures
        views(args@) == seq!["snapshot"@, vm_id.text(), "delete"@, snap_id.text()],
{
    let mut args: Vec<String> = Vec::new();
    push_word(&mut args, "snapshot");
    push_word(&mut args, vm_id.to_string().as_str());
    push_word(&mut args, "delete");
    push_word(&mut args, snap_id.to_string().as_str());
    assert(views(args@) =~= seq!["snapshot"@, vm_id.text(), "delete"@, snap_id.text()]);
    args
}

/// The identifiers of the snapshots that a designation stands for in a tree.
pub open spec fn designated(nodes: Map<u128, Snapshot>, snap_id: SnapshotId) -> Set<u128> {
    match snap_id {
        SnapshotId::Name(name) => named(nodes, name@),
        SnapshotId::Uuid(uuid) => if nodes.contains_key(uuid) {
            set![uuid]
        } else {
            Set::empty()
        },
    }
}

/// Whether a snapshot is there to be deleted: the machine has snapshots, and the designation
/// stands for at least one of them.
pub fn has_snapshot(snaps: &Option<Snapshots>, snap_id: &SnapshotId) -> (exists: bool)
    ensures
        exists == (snaps matches Some(tree) && designated(tree.map@, *snap_id).len() > 0),
{
    match snaps {
        Some(tree) => {
            let found = tree.get(snap_id);
            proof {
                match snap_id {
                    SnapshotId::Name(name) => {
                        let ids = choose|ids: Seq<u128>|
                            {
                                &&& ids.len() == found@.len()
                                &&& ids.no_duplicates()
                                &&& ids.to_set() == named(tree.map@, name@)
                                &&& forall|i: int|
                                    0 <= i < ids.len()
                                        ==> *found@[i] == tree.map@[#[trigger] ids[i]]
                            };
                        ids.unique_seq_to_set();
                    },
                    SnapshotId::Uuid(uuid) => {},
                }
            }
            found.len() > 0
        },
        None => false,
    }
}

} // verus!
