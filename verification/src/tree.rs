//! The snapshot tree that a flat map describes.
//!
//! The map holds no parent pointers. The root is described by the keys `SnapshotName` and
//! `SnapshotUUID`; its children by the same keys with the suffixes `-1`, `-2`, ...; their
//! children by `-1-1`, `-1-2`, ... and so on. The children of a node are numbered from 1
//! without gaps: the first number that has no `SnapshotUUID` key ends the list.
//!
//! The tree is rebuilt by a walk that starts at the root. It visits a branch, looks at its
//! name and at the identifiers of its children, and goes on with the child of the highest
//! number. The first fault that it meets ends it.

use crate::branch::{
    branch_suffix, comes_before, is_above, lemma_branch_suffix_injective, lemma_earliest,
    lemma_order_asymmetric, lemma_order_total, lemma_order_transitive,
};
use crate::err::Error;
use crate::flatmap::Pairs;
use crate::ident::Reading;
use crate::snapshot::{Snapshot, SnapshotView, Snapshots};
use vstd::prelude::*;
use vstd::set_lib::{
    lemma_int_range, lemma_len_subset, lemma_map_size, lemma_set_subset_finite, set_int_range,
};

verus! {

/// The key that holds the identifier of the branch at `path`.
pub open spec fn uuid_key(path: Seq<nat>) -> Seq<char> {
    "SnapshotUUID"@ + branch_suffix(path)
}

/// The key that holds the name of the branch at `path`.
pub open spec fn name_key(path: Seq<nat>) -> Seq<char> {
    "SnapshotName"@ + branch_suffix(path)
}

/// The key that holds the identifier of the current snapshot.
pub open spec fn current_key() -> Seq<char> {
    "CurrentSnapshotUUID"@
}

/// Whether the map describes any snapshot at all: the root has both of its keys.
pub open spec fn has_root(m: Pairs) -> bool {
    m.contains_key(name_key(Seq::empty())) && m.contains_key(uuid_key(Seq::empty()))
}

/// Whether the map holds an identifier for the branch at `path`.
pub open spec fn has_branch(m: Pairs, path: Seq<nat>) -> bool {
    m.contains_key(uuid_key(path))
}

/// The identifier that the map gives the branch at `path`, if its text parses.
pub open spec fn branch_id(m: Pairs, ids: Reading, path: Seq<nat>) -> Option<u128> {
    ids(m[uuid_key(path)])
}

/// Whether `path` is a branch of the map: every step is a child number from 1 up, and at each
/// step the branch and all its lower-numbered siblings have an identifier.
pub open spec fn reachable(m: Pairs, path: Seq<nat>) -> bool
    decreases path.len(),
{
    path.len() == 0 || {
        &&& reachable(m, path.drop_last())
        &&& path.last() >= 1
        &&& forall|j: nat|
            1 <= j <= path.last() ==> #[trigger] has_branch(m, path.drop_last().push(j))
    }
}

/// Whether the visit of the branch at `path` meets no fault: the branch has a name, and the
/// identifiers of all its children parse.
pub open spec fn clean(m: Pairs, ids: Reading, path: Seq<nat>) -> bool {
    &&& m.contains_key(name_key(path))
    &&& forall|j: nat| #[trigger] reachable(m, path.push(j))
        ==> branch_id(m, ids, path.push(j)) is Some
}

/// Whether the walk meets its first fault at `path`: the visit of that branch is not clean,
/// and the visits of all branches that come before it are.
pub open spec fn first_fault_at(m: Pairs, ids: Reading, path: Seq<nat>) -> bool {
    &&& reachable(m, path)
    &&& !clean(m, ids, path)
    &&& forall|q: Seq<nat>| #[trigger] comes_before(q, path) && reachable(m, q) ==> clean(m, ids, q)
}

/// Whether the identifier that the map gives for the current snapshot is that of one of its
/// branches.
pub open spec fn current_is_branch(m: Pairs, ids: Reading) -> bool {
    exists|path: Seq<nat>| #[trigger]
        reachable(m, path) && branch_id(m, ids, path) == ids(m[current_key()])
}

/// Whether the map describes a whole tree: the identifier of the root parses, the visit of
/// every branch is clean, and the map names a current snapshot by an identifier that parses
/// and that is the identifier of one of the branches.
pub open spec fn whole(m: Pairs, ids: Reading) -> bool {
    &&& branch_id(m, ids, Seq::empty()) is Some
    &&& forall|path: Seq<nat>| #[trigger] reachable(m, path) ==> clean(m, ids, path)
    &&& m.contains_key(current_key())
    &&& ids(m[current_key()]) is Some
    &&& current_is_branch(m, ids)
}

/// Whether `node` is the snapshot that the map describes at `path`: its name and identifier
/// are those of the branch, it has no description, and its children are the identifiers of the
/// branches `path-1`, `path-2`, ... up to the first number without an identifier.
pub open spec fn describes(m: Pairs, ids: Reading, path: Seq<nat>, node: SnapshotView) -> bool {
    &&& m.contains_key(name_key(path))
    &&& has_branch(m, path)
    &&& node.name == m[name_key(path)]
    &&& Some(node.uuid) == branch_id(m, ids, path)
    &&& node.desc.len() == 0
    &&& forall|j: nat|
        1 <= j <= node.children.len()
            ==> #[trigger] has_branch(m, path.push(j))
                && branch_id(m, ids, path.push(j)) == Some(node.children[j - 1])
    &&& !has_branch(m, path.push(node.children.len() + 1))
}

/// Whether `node` is the snapshot that the tree keeps for the branch at `path`: the map
/// describes it there, and no branch with the same identifier is visited later. Where two
/// branches carry one identifier, the one that is visited later replaces the other.
pub open spec fn keeps(m: Pairs, ids: Reading, path: Seq<nat>, node: SnapshotView) -> bool {
    &&& reachable(m, path)
    &&& describes(m, ids, path, node)
    &&& forall|q: Seq<nat>| #[trigger]
        reachable(m, q) && branch_id(m, ids, q) == Some(node.uuid)
            ==> q == path || comes_before(q, path)
}

/// Whether `nodes`, `root` and `current` are the tree that the map describes: the root and
/// the current snapshot carry the identifiers the map names, the current snapshot is one of
/// the nodes, every branch has a node under its identifier, and every node is the snapshot
/// that the tree keeps for some branch.
pub open spec fn is_tree_of(
    m: Pairs,
    ids: Reading,
    nodes: Map<u128, Snapshot>,
    root: u128,
    current: u128,
) -> bool {
    &&& Some(root) == branch_id(m, ids, Seq::empty())
    &&& Some(current) == ids(m[current_key()])
    &&& nodes.contains_key(current)
    &&& forall|path: Seq<nat>| #[trigger]
        reachable(m, path) ==> branch_id(m, ids, path) is Some && nodes.contains_key(
            branch_id(m, ids, path)->0,
        )
    &&& forall|id: u128| #[trigger]
        nodes.contains_key(id) ==> nodes[id].uuid == id && exists|path: Seq<nat>| #[trigger]
            keeps(m, ids, path, nodes[id]@)
}

/// The message for a root whose identifier does not parse.
pub open spec fn root_message(m: Pairs) -> Seq<char> {
    "Unable to parse root UUID '"@ + m[uuid_key(Seq::empty())] + "'"@
}

/// The message for a branch without a name.
pub open spec fn name_message(path: Seq<nat>) -> Seq<char> {
    "Can't find expected field '"@ + name_key(path) + "'"@
}

/// The message for a branch with a child whose identifier does not parse. It names the
/// branch and its own identifier, not the child.
pub open spec fn child_message(m: Pairs, path: Seq<nat>) -> Seq<char> {
    "Unable to parse UUID '"@ + m[uuid_key(path)] + "' for '"@ + uuid_key(path) + "'"@
}

/// The message for a map that names no current snapshot.
pub open spec fn no_current_message() -> Seq<char> {
    "Can't find expected field 'CurrentSnapshotUUID"@
}

/// The message for a current snapshot whose identifier does not parse.
pub open spec fn current_message(m: Pairs) -> Seq<char> {
    "Unable to parse current UUID '"@ + m[current_key()] + "'"@
}

/// The message for a current snapshot whose identifier is that of no branch.
pub open spec fn stray_current_message(m: Pairs) -> Seq<char> {
    "Can't find current snapshot '"@ + m[current_key()] + "'"@
}

/// Whether `e` reports the fault that the visit of the branch at `path` meets: `MissingData`
/// for a branch without a name, else `BadFormat` for the identifier of a child.
pub open spec fn reports_fault(m: Pairs, ids: Reading, path: Seq<nat>, e: Error) -> bool {
    if !m.contains_key(name_key(path)) {
        e is MissingData && e.message() == name_message(path)
    } else {
        e is BadFormat && e.message() == child_message(m, path)
    }
}

/// Whether `e` reports why the map, which has a root, describes no whole tree: the root's
/// identifier that does not parse, else the first fault that the walk meets, else the current
/// snapshot that is not named, else its identifier that does not parse, else its identifier
/// that is the identifier of no branch.
pub open spec fn reports(m: Pairs, ids: Reading, e: Error) -> bool {
    if branch_id(m, ids, Seq::empty()) is None {
        e is BadFormat && e.message() == root_message(m)
    } else if exists|path: Seq<nat>| first_fault_at(m, ids, path) {
        exists|path: Seq<nat>| first_fault_at(m, ids, path) && reports_fault(m, ids, path, e)
    } else if !m.contains_key(current_key()) {
        e is MissingData && e.message() == no_current_message()
    } else if ids(m[current_key()]) is None {
        e is BadFormat && e.message() == current_message(m)
    } else {
        e is MissingData && e.message() == stray_current_message(m)
    }
}

/// Whether `r` is the outcome of rebuilding the tree of a map: no tree for a map without
/// root, the tree for a map that describes a whole tree, and else the report of what is wrong.
pub open spec fn rebuilds(m: Pairs, ids: Reading, r: Result<Option<Snapshots>, Error>) -> bool {
    match r {
        Ok(None) => !has_root(m),
        Ok(Some(tree)) => has_root(m) && whole(m, ids)
            && is_tree_of(m, ids, tree.map@, tree.root, tree.current),
        Err(e) => has_root(m) && !whole(m, ids) && reports(m, ids, e),
    }
}

/// Whether no two branches of the map carry the same identifier.
pub open spec fn distinct_ids(m: Pairs, ids: Reading) -> bool {
    forall|p: Seq<nat>, q: Seq<nat>|
        #![trigger reachable(m, p), reachable(m, q)]
        reachable(m, p) && reachable(m, q) && branch_id(m, ids, p) == branch_id(m, ids, q)
            ==> p == q
}

/// Whether `key` is a name key: `SnapshotName`, with or without a suffix.
pub open spec fn is_name_key(key: Seq<char>) -> bool {
    "SnapshotName"@.is_prefix_of(key)
}

/// The values that the map holds under its name keys.
pub open spec fn map_names(m: Pairs) -> Set<Seq<char>> {
    Set::new(
        |name: Seq<char>|
            exists|key: Seq<char>| #[trigger] m.contains_key(key) && is_name_key(key)
                && m[key] == name,
    )
}

/// The names of the nodes of a tree.
pub open spec fn tree_names(nodes: Map<u128, Snapshot>) -> Set<Seq<char>> {
    Set::new(|name: Seq<char>| exists|id: u128| #[trigger] nodes.contains_key(id)
        && nodes[id].name@ == name)
}

/// Child numbers are contiguous. Where the children 1 to `gap - 1` of a branch have
/// identifiers and child `gap` has none, the node of the branch has exactly `gap - 1` children,
/// and no child numbered `gap` or higher is a branch of the map, whatever the map holds for it.
pub proof fn lemma_children_end_at_first_gap(
    m: Pairs,
    ids: Reading,
    path: Seq<nat>,
    node: SnapshotView,
    gap: nat,
)
    requires
        describes(m, ids, path, node),
        gap >= 1,
        forall|j: nat| 1 <= j < gap ==> #[trigger] has_branch(m, path.push(j)),
        !has_branch(m, path.push(gap)),
    ensures
        node.children.len() == gap - 1,
        forall|later: nat| later >= gap ==> !#[trigger] reachable(m, path.push(later)),
{
    let count = node.children.len();
    if count >= gap {
        assert(has_branch(m, path.push(gap)));
    }
    if count + 1 < gap {
        assert(has_branch(m, path.push(count + 1)));
    }
    assert forall|later: nat| later >= gap implies !#[trigger] reachable(m, path.push(later)) by {
        if reachable(m, path.push(later)) {
            assert(path.push(later).drop_last() =~= path);
            assert(has_branch(m, path.push(later).drop_last().push(gap)));
        }
    }
}

/// A map describes at most one node for a branch.
pub proof fn lemma_describes_one(
    m: Pairs,
    ids: Reading,
    path: Seq<nat>,
    a: SnapshotView,
    b: SnapshotView,
)
    requires
        describes(m, ids, path, a),
        describes(m, ids, path, b),
    ensures
        a == b,
{
    lemma_children_end_at_first_gap(m, ids, path, a, b.children.len() + 1);
    assert forall|i: int| 0 <= i < a.children.len() implies a.children[i] == b.children[i] by {
        assert(has_branch(m, path.push((i + 1) as nat)));
    }
    assert(a.children =~= b.children);
    assert(a.desc =~= b.desc);
}

/// A map describes one tree only: two trees of the same map have the same root, the same
/// current snapshot and the same nodes.
pub proof fn lemma_tree_is_determined(
    m: Pairs,
    ids: Reading,
    nodes1: Map<u128, Snapshot>,
    root1: u128,
    current1: u128,
    nodes2: Map<u128, Snapshot>,
    root2: u128,
    current2: u128,
)
    requires
        is_tree_of(m, ids, nodes1, root1, current1),
        is_tree_of(m, ids, nodes2, root2, current2),
    ensures
        root1 == root2,
        current1 == current2,
        nodes1.dom() == nodes2.dom(),
        forall|id: u128| nodes1.contains_key(id) ==> nodes1[id]@ == nodes2[id]@,
{
    assert forall|id: u128| nodes1.contains_key(id) implies nodes2.contains_key(id) && nodes1[id]@
        == nodes2[id]@ by {
        let p = choose|p: Seq<nat>| #[trigger] keeps(m, ids, p, nodes1[id]@);
        assert(reachable(m, p));
        assert(nodes2.contains_key(id));
        let q = choose|q: Seq<nat>| #[trigger] keeps(m, ids, q, nodes2[id]@);
        assert(reachable(m, q));
        if p != q {
            assert(comes_before(p, q));
            assert(comes_before(q, p));
            lemma_order_asymmetric(p, q);
        }
        lemma_describes_one(m, ids, p, nodes1[id]@, nodes2[id]@);
    }
    assert forall|id: u128| nodes2.contains_key(id) implies nodes1.contains_key(id) by {
        let q = choose|q: Seq<nat>| #[trigger] keeps(m, ids, q, nodes2[id]@);
        assert(reachable(m, q));
    }
    assert(nodes1.dom() =~= nodes2.dom());
}

/// The walk meets its first fault at one branch only.
pub proof fn lemma_first_fault_is_one(m: Pairs, ids: Reading, p: Seq<nat>, q: Seq<nat>)
    requires
        first_fault_at(m, ids, p),
        first_fault_at(m, ids, q),
    ensures
        p == q,
{
    if p != q {
        lemma_order_total(p, q);
        if comes_before(p, q) {
            assert(clean(m, ids, p));
        } else {
            assert(clean(m, ids, q));
        }
    }
}

/// Every branch of a map with a root has an identifier.
pub proof fn lemma_branches_have_keys(m: Pairs, path: Seq<nat>)
    requires
        has_root(m),
        reachable(m, path),
    ensures
        has_branch(m, path),
{
    if path.len() > 0 {
        assert(path.drop_last().push(path.last()) =~= path);
        assert(has_branch(m, path.drop_last().push(path.last())));
    } else {
        assert(path =~= Seq::empty());
    }
}

/// A map has finitely many branches.
pub proof fn lemma_branches_are_finite(m: Pairs)
    requires
        m.dom().finite(),
        has_root(m),
    ensures
        Set::new(|path: Seq<nat>| reachable(m, path)).finite(),
{
    let branches = Set::new(|path: Seq<nat>| reachable(m, path));
    let back = |key: Seq<char>| choose|path: Seq<nat>| uuid_key(path) == key;
    let found = m.dom().map(back);
    m.dom().lemma_map_finite(back);
    assert forall|path: Seq<nat>| branches.contains(path) implies found.contains(path) by {
        lemma_branches_have_keys(m, path);
        let key = uuid_key(path);
        lemma_uuid_key_injective(back(key), path);
        assert(m.dom().contains(key) && path == back(key));
    }
    assert(branches.subset_of(found));
    lemma_set_subset_finite(found, branches);
}

/// Where the visit of some branch is not clean, the walk meets a first fault: among the
/// branches with such a visit there is one that is visited before all the others.
pub proof fn lemma_first_fault_exists(m: Pairs, ids: Reading, path: Seq<nat>)
    requires
        m.dom().finite(),
        has_root(m),
        reachable(m, path),
        !clean(m, ids, path),
    ensures
        exists|first: Seq<nat>| first_fault_at(m, ids, first),
{
    let branches = Set::new(|p: Seq<nat>| reachable(m, p));
    let faulty = Set::new(|p: Seq<nat>| reachable(m, p) && !clean(m, ids, p));
    lemma_branches_are_finite(m);
    assert(faulty.subset_of(branches));
    lemma_set_subset_finite(branches, faulty);
    assert(faulty.contains(path));
    if faulty.len() == 0 {
        assert(faulty =~= Set::empty()) by {
            faulty.lemma_len0_is_empty();
        }
    }
    lemma_earliest(faulty);
    let first = choose|p: Seq<nat>|
        #[trigger] faulty.contains(p) && forall|q: Seq<nat>|
            faulty.contains(q) ==> !#[trigger] comes_before(q, p);
    assert forall|q: Seq<nat>| #[trigger] comes_before(q, first) && reachable(m, q) implies clean(
        m,
        ids,
        q,
    ) by {
        if !clean(m, ids, q) {
            assert(faulty.contains(q));
        }
    }
    assert(first_fault_at(m, ids, first));
}

/// What is reported where the visit of some branch is not clean. Where the root's identifier
/// parses, the report is that of the first fault of the walk; and where every branch has a
/// name, so that the fault is a child's identifier that does not parse, it is `BadFormat`.
pub proof fn lemma_fault_is_reported(m: Pairs, ids: Reading, path: Seq<nat>, e: Error)
    requires
        m.dom().finite(),
        has_root(m),
        branch_id(m, ids, Seq::empty()) is Some,
        reachable(m, path),
        !clean(m, ids, path),
        reports(m, ids, e),
    ensures
        !whole(m, ids),
        exists|first: Seq<nat>| first_fault_at(m, ids, first) && reports_fault(m, ids, first, e),
        (forall|p: Seq<nat>| #[trigger] reachable(m, p) ==> m.contains_key(name_key(p)))
            ==> e is BadFormat,
{
    lemma_first_fault_exists(m, ids, path);
    let first = choose|first: Seq<nat>|
        first_fault_at(m, ids, first) && reports_fault(m, ids, first, e);
    assert(reachable(m, first));
}

/// A tree holds what it refers to: each node stands under its own identifier, the root and
/// the current snapshot are among its nodes, and so is every child of every node.
pub proof fn lemma_tree_is_closed(
    m: Pairs,
    ids: Reading,
    nodes: Map<u128, Snapshot>,
    root: u128,
    current: u128,
)
    requires
        is_tree_of(m, ids, nodes, root, current),
    ensures
        nodes.contains_key(root),
        nodes.contains_key(current),
        forall|id: u128| #[trigger] nodes.contains_key(id) ==> nodes[id].uuid == id,
        forall|id: u128, j: int|
            nodes.contains_key(id) && 0 <= j < nodes[id].children@.len() ==> nodes.contains_key(
                #[trigger] nodes[id].children@[j],
            ),
{
    assert(reachable(m, Seq::empty()));
    assert forall|id: u128, j: int|
        nodes.contains_key(id) && 0 <= j < nodes[id].children@.len() implies nodes.contains_key(
        #[trigger] nodes[id].children@[j],
    ) by {
        let p = choose|p: Seq<nat>| #[trigger] keeps(m, ids, p, nodes[id]@);
        let child = p.push((j + 1) as nat);
        assert(child.drop_last() =~= p);
        assert forall|k: nat| 1 <= k <= child.last() implies #[trigger] has_branch(
            m,
            child.drop_last().push(k),
        ) by {
            assert(has_branch(m, p.push(k)));
        }
        assert(reachable(m, child));
        assert(has_branch(m, p.push((j + 1) as nat)));
    }
}

/// Whether `chain` leads down the tree: each of its identifiers has a node, and each but the
/// first is a child of the one before it.
pub open spec fn is_chain(nodes: Map<u128, Snapshot>, chain: Seq<u128>) -> bool {
    &&& forall|i: int| 0 <= i < chain.len() ==> nodes.contains_key(#[trigger] chain[i])
    &&& forall|i: int|
        0 <= i < chain.len() - 1 ==> (#[trigger] nodes[chain[i]]).children@.contains(chain[i + 1])
}

/// Every child of a node is kept for a branch that is visited after the branch for which the
/// node is kept.
pub proof fn lemma_children_come_later(
    m: Pairs,
    ids: Reading,
    nodes: Map<u128, Snapshot>,
    id: u128,
    child: u128,
    p: Seq<nat>,
    q: Seq<nat>,
)
    requires
        nodes.contains_key(id),
        nodes.contains_key(child),
        nodes[child].uuid == child,
        nodes[id].children@.contains(child),
        keeps(m, ids, p, nodes[id]@),
        keeps(m, ids, q, nodes[child]@),
    ensures
        comes_before(p, q),
{
    let j = choose|j: int| 0 <= j < nodes[id].children@.len() && nodes[id].children@[j] == child;
    let step = p.push((j + 1) as nat);
    assert(step.drop_last() =~= p);
    assert forall|k: nat| 1 <= k <= step.last() implies #[trigger] has_branch(
        m,
        step.drop_last().push(k),
    ) by {
        assert(has_branch(m, p.push(k)));
    }
    assert(reachable(m, step));
    assert(has_branch(m, p.push((j + 1) as nat)));
    assert(p =~= step.take(p.len() as int));
    assert(is_above(p, step));
    if step != q {
        assert(comes_before(step, q));
        lemma_order_transitive(p, step, q);
    }
}

/// The tree has no cycles: a chain that leads down from a node never comes back to it.
pub proof fn lemma_no_cycle(
    m: Pairs,
    ids: Reading,
    nodes: Map<u128, Snapshot>,
    root: u128,
    current: u128,
    chain: Seq<u128>,
)
    requires
        is_tree_of(m, ids, nodes, root, current),
        is_chain(nodes, chain),
        chain.len() >= 2,
    ensures
        chain.first() != chain.last(),
{
    let top = choose|p: Seq<nat>| #[trigger] keeps(m, ids, p, nodes[chain.first()]@);
    lemma_chain_goes_forward(m, ids, nodes, root, current, chain, chain.len() - 1);
    let end = choose|p: Seq<nat>| #[trigger] keeps(m, ids, p, nodes[chain.last()]@);
    if chain.first() == chain.last() {
        lemma_order_asymmetric(top, end);
    }
}

/// Every later member of a chain is kept for a branch that is visited after the branch of the
/// first member.
proof fn lemma_chain_goes_forward(
    m: Pairs,
    ids: Reading,
    nodes: Map<u128, Snapshot>,
    root: u128,
    current: u128,
    chain: Seq<u128>,
    i: int,
)
    requires
        is_tree_of(m, ids, nodes, root, current),
        is_chain(nodes, chain),
        1 <= i < chain.len(),
    ensures
        comes_before(
            choose|p: Seq<nat>| #[trigger] keeps(m, ids, p, nodes[chain[0]]@),
            choose|p: Seq<nat>| #[trigger] keeps(m, ids, p, nodes[chain[i]]@),
        ),
    decreases i,
{
    let top = choose|p: Seq<nat>| #[trigger] keeps(m, ids, p, nodes[chain[0]]@);
    let here = choose|p: Seq<nat>| #[trigger] keeps(m, ids, p, nodes[chain[i]]@);
    let above = choose|p: Seq<nat>| #[trigger] keeps(m, ids, p, nodes[chain[i - 1]]@);
    assert(nodes.contains_key(chain[i - 1]) && nodes.contains_key(chain[i]));
    assert(nodes[chain[i - 1]].children@.contains(chain[i - 1 + 1]));
    lemma_children_come_later(m, ids, nodes, chain[i - 1], chain[i], above, here);
    if i > 1 {
        lemma_chain_goes_forward(m, ids, nodes, root, current, chain, i - 1);
        lemma_order_transitive(top, above, here);
    }
}

/// Every name in the tree is a value of a name key of the map.
pub proof fn lemma_tree_names_come_from_map(
    m: Pairs,
    ids: Reading,
    nodes: Map<u128, Snapshot>,
    root: u128,
    current: u128,
)
    requires
        is_tree_of(m, ids, nodes, root, current),
    ensures
        tree_names(nodes).subset_of(map_names(m)),
{
    assert forall|name: Seq<char>| tree_names(nodes).contains(name) implies map_names(m).contains(
        name,
    ) by {
        let id = choose|id: u128| #[trigger] nodes.contains_key(id) && nodes[id].name@ == name;
        let p = choose|p: Seq<nat>| #[trigger] keeps(m, ids, p, nodes[id]@);
        assert(m.contains_key(name_key(p)) && is_name_key(name_key(p)));
    }
}

/// The names round trip. Where every name key of the map belongs to a branch, and the
/// branches carry distinct identifiers, the names of the tree's nodes are exactly the values
/// of the map's name keys.
pub proof fn lemma_names_round_trip(
    m: Pairs,
    ids: Reading,
    nodes: Map<u128, Snapshot>,
    root: u128,
    current: u128,
)
    requires
        is_tree_of(m, ids, nodes, root, current),
        distinct_ids(m, ids),
        forall|key: Seq<char>| #[trigger]
            m.contains_key(key) && is_name_key(key) ==> exists|p: Seq<nat>| #[trigger]
                reachable(m, p) && key == name_key(p),
    ensures
        tree_names(nodes) == map_names(m),
{
    lemma_tree_names_come_from_map(m, ids, nodes, root, current);
    assert forall|name: Seq<char>| map_names(m).contains(name) implies tree_names(nodes).contains(
        name,
    ) by {
        let key = choose|key: Seq<char>| #[trigger]
            m.contains_key(key) && is_name_key(key) && m[key] == name;
        let p = choose|p: Seq<nat>| #[trigger] reachable(m, p) && key == name_key(p);
        let id = branch_id(m, ids, p)->0;
        assert(nodes.contains_key(id));
        let q = choose|q: Seq<nat>| #[trigger] keeps(m, ids, q, nodes[id]@);
        assert(reachable(m, q));
        assert(p == q);
    }
    assert(tree_names(nodes) =~= map_names(m));
}

/// When the rebuild succeeds: for a map with a root it gives a tree exactly if the map
/// describes a whole tree, and for a map without a root it gives no tree and no error.
pub proof fn lemma_success_is_owed(m: Pairs, ids: Reading, r: Result<Option<Snapshots>, Error>)
    requires
        rebuilds(m, ids, r),
    ensures
        r matches Ok(None) <==> !has_root(m),
        r matches Ok(Some(_)) <==> has_root(m) && whole(m, ids),
        r is Err <==> has_root(m) && !whole(m, ids),
{
}

/// The names round trip through the rebuild. Where a map describes a whole tree, every name
/// key of the map belongs to a branch, and the branches carry distinct identifiers, the
/// rebuild gives a tree, and the names of its nodes are exactly the values of the map's name
/// keys.
pub proof fn lemma_rebuild_keeps_names(
    m: Pairs,
    ids: Reading,
    r: Result<Option<Snapshots>, Error>,
)
    requires
        rebuilds(m, ids, r),
        has_root(m),
        whole(m, ids),
        distinct_ids(m, ids),
        forall|key: Seq<char>| #[trigger]
            m.contains_key(key) && is_name_key(key) ==> exists|p: Seq<nat>| #[trigger]
                reachable(m, p) && key == name_key(p),
    ensures
        r matches Ok(Some(tree)) && tree_names(tree.map@) == map_names(m),
{
    match r {
        Ok(Some(tree)) => {
            lemma_names_round_trip(m, ids, tree.map@, tree.root, tree.current);
        },
        _ => {},
    }
}

/// Different branch paths have different identifier keys.
pub proof fn lemma_uuid_key_injective(p: Seq<nat>, q: Seq<nat>)
    requires
        uuid_key(p) == uuid_key(q),
    ensures
        p == q,
{
    let prefix = "SnapshotUUID"@;
    assert(branch_suffix(p) =~= uuid_key(p).skip(prefix.len() as int));
    assert(branch_suffix(q) =~= uuid_key(q).skip(prefix.len() as int));
    lemma_branch_suffix_injective(p, q);
}

/// A branch with an identifier, whose children 1 to `n` all have identifiers too, accounts for
/// `n + 1` keys of the map.
pub(crate) proof fn lemma_sibling_count(m: Pairs, path: Seq<nat>, n: nat)
    requires
        m.dom().finite(),
        has_branch(m, path),
        forall|j: nat| 1 <= j <= n ==> #[trigger] has_branch(m, path.push(j)),
    ensures
        n + 1 <= m.dom().len(),
{
    let f = |j: int|
        if j == 0 {
            uuid_key(path)
        } else {
            uuid_key(path.push(j as nat))
        };
    let numbers = set_int_range(0, n as int + 1);
    let keys = numbers.map(f);
    lemma_int_range(0, n as int + 1);
    assert forall|j1: int, j2: int|
        numbers.contains(j1) && numbers.contains(j2) && #[trigger] f(j1) == #[trigger] f(
            j2,
        ) implies j1 == j2 by {
        let left = if j1 == 0 {
            path
        } else {
            path.push(j1 as nat)
        };
        let right = if j2 == 0 {
            path
        } else {
            path.push(j2 as nat)
        };
        lemma_uuid_key_injective(left, right);
        if j1 != 0 && j2 != 0 {
            assert(left.last() == j1 && right.last() == j2);
        }
    }
    lemma_map_size(numbers, keys, f);
    assert forall|key: Seq<char>| keys.contains(key) implies m.dom().contains(key) by {
        let j = choose|j: int| numbers.contains(j) && f(j) == key;
        if j != 0 {
            assert(has_branch(m, path.push(j as nat)));
        }
    }
    lemma_len_subset(keys, m.dom());
}

/// Finitely many branches that all have identifiers are no more than the map has keys.
pub(crate) proof fn lemma_branch_count(m: Pairs, paths: Set<Seq<nat>>)
    requires
        m.dom().finite(),
        paths.finite(),
        forall|p: Seq<nat>| paths.contains(p) ==> #[trigger] has_branch(m, p),
    ensures
        paths.len() <= m.dom().len(),
{
    let f = |p: Seq<nat>| uuid_key(p);
    let keys = paths.map(f);
    assert forall|p: Seq<nat>, q: Seq<nat>|
        paths.contains(p) && paths.contains(q) && #[trigger] f(p) == #[trigger] f(
            q,
        ) implies p == q by {
        lemma_uuid_key_injective(p, q);
    }
    lemma_map_size(paths, keys, f);
    assert forall|key: Seq<char>| keys.contains(key) implies m.dom().contains(key) by {
        let p = choose|p: Seq<nat>| paths.contains(p) && f(p) == key;
        assert(has_branch(m, p));
    }
    lemma_len_subset(keys, m.dom());
}

} // verus!
