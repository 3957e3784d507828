//! The walk that rebuilds the snapshot tree from a flat map.
//!
//! The branches that wait for their visit are kept on a stack. A visit takes the branch on
//! top, makes its node, and puts its children on the stack in the order of their numbers, so
//! that the child with the highest number is visited next.

use crate::branch::{
    branch_suffix, branches_off, child_suffix, comes_before, is_above, lemma_branches_off_below,
    lemma_order_asymmetric, lemma_order_total, parts_above,
};
use crate::err::Error;
use crate::flatmap::{FlatMap, Pairs};
use crate::ident::{readings, Identifiers, Reading, Uuids};
use crate::snapshot::{framed, Snapshot, Snapshots};
use crate::tree::{
    branch_id, clean, current_key, describes, first_fault_at, has_branch, has_root, keeps,
    lemma_branch_count, lemma_sibling_count, lemma_tree_is_closed, name_key, reachable, rebuilds,
    uuid_key,
};
use std::collections::HashMap;
use vstd::prelude::*;

verus! {

/// What is known in the middle of the walk. `done` holds the branches that have been taken
/// from the stack, `pending` is the stack, top last. While the children of one branch are
/// being counted, `open` is that branch and `upto` the first child number not yet looked at.
#[verifier::opaque]
spec fn walk_state(
    m: Pairs,
    ids: Reading,
    done: Set<Seq<nat>>,
    pending: Seq<Seq<nat>>,
    open: Option<Seq<nat>>,
    upto: nat,
) -> bool {
    &&& done.finite()
    &&& forall|p: Seq<nat>| #[trigger]
        done.contains(p) ==> {
            &&& reachable(m, p)
            &&& has_branch(m, p)
            &&& m.contains_key(name_key(p))
            &&& branch_id(m, ids, p) is Some
            &&& open != Some(p) ==> clean(m, ids, p)
        }
    &&& forall|k: int|
        0 <= k < pending.len() ==> {
            &&& reachable(m, #[trigger] pending[k])
            &&& has_branch(m, pending[k])
            &&& branch_id(m, ids, pending[k]) is Some
            &&& !done.contains(pending[k])
        }
    &&& forall|i: int, k: int|
        0 <= i < k < pending.len() ==> #[trigger] parts_above(pending[k], pending[i])
    &&& forall|p: Seq<nat>| #[trigger]
        done.contains(p) && p.len() > 0 ==> done.contains(p.drop_last())
    &&& forall|k: int|
        0 <= k < pending.len() && (#[trigger] pending[k]).len() > 0 ==> done.contains(
            pending[k].drop_last(),
        )
    &&& forall|p: Seq<nat>, j: nat|
        done.contains(p) && j >= 1 && #[trigger] reachable(m, p.push(j)) ==> done.contains(
            p.push(j),
        ) || pending.contains(p.push(j)) || (open == Some(p) && j >= upto)
    &&& forall|p: Seq<nat>|
        (#[trigger] done.contains(p)) && p.len() > 0 && open == Some(p.drop_last())
            ==> p.last() < upto
    &&& forall|k: int|
        0 <= k < pending.len() && open is Some ==> {
            ||| (#[trigger] pending[k]).len() > 0 && pending[k].drop_last() == open->0
                && pending[k].last() < upto
            ||| parts_above(open->0, pending[k])
        }
    &&& done.contains(Seq::empty()) || pending.contains(Seq::empty())
    &&& forall|q: Seq<nat>, r: Seq<nat>| #[trigger]
        comes_before(r, q) && done.contains(q) && reachable(m, r) ==> done.contains(r)
}

/// Whether `node` is the snapshot to keep for the branch at `path` among the branches in
/// `done`: the map describes it there, and no branch in `done` with the same identifier comes
/// later.
spec fn kept_among(
    m: Pairs,
    ids: Reading,
    done: Set<Seq<nat>>,
    path: Seq<nat>,
    node: Snapshot,
) -> bool {
    &&& done.contains(path)
    &&& describes(m, ids, path, node@)
    &&& forall|q: Seq<nat>| #[trigger]
        done.contains(q) && branch_id(m, ids, q) == Some(node.uuid) ==> q == path || comes_before(
            q,
            path,
        )
}

/// What is known of the nodes made so far: each branch in `done` has a node under its
/// identifier, and each node is the snapshot to keep for a branch in `done`.
#[verifier::opaque]
spec fn nodes_state(
    m: Pairs,
    ids: Reading,
    done: Set<Seq<nat>>,
    nodes: Map<u128, Snapshot>,
) -> bool {
    &&& forall|p: Seq<nat>| #[trigger] done.contains(p)
        ==> nodes.contains_key(branch_id(m, ids, p)->0)
    &&& forall|id: u128| #[trigger]
        nodes.contains_key(id) ==> nodes[id].uuid == id && exists|p: Seq<nat>| #[trigger]
            kept_among(m, ids, done, p, nodes[id])
}

/// No branch parts from its own child.
proof fn lemma_child_stays(p: Seq<nat>, j: nat, d: int)
    ensures
        !branches_off(p, p.push(j), d),
{
    if branches_off(p, p.push(j), d) {
        assert(p.push(j)[d] == p[d]);
    }
}

/// The walk begins with the root on the stack and nothing done.
proof fn lemma_walk_start(m: Pairs, ids: Reading)
    requires
        has_branch(m, Seq::empty()),
        branch_id(m, ids, Seq::empty()) is Some,
    ensures
        walk_state(m, ids, Set::empty(), seq![Seq::empty()], None, 0),
        nodes_state(m, ids, Set::empty(), Map::empty()),
{
    reveal(walk_state);
    reveal(nodes_state);
    let pending: Seq<Seq<nat>> = seq![Seq::empty()];
    assert(pending[0] == Seq::<nat>::empty());
    assert(pending.contains(Seq::empty()));
}

/// A branch that is not done has itself or an ancestor on the stack.
proof fn lemma_waiting_ancestor(
    m: Pairs,
    ids: Reading,
    done: Set<Seq<nat>>,
    pending: Seq<Seq<nat>>,
    r: Seq<nat>,
) -> (k: int)
    requires
        walk_state(m, ids, done, pending, None, 0),
        reachable(m, r),
        !done.contains(r),
    ensures
        0 <= k < pending.len(),
        pending[k] == r || is_above(pending[k], r),
    decreases r.len(),
{
    reveal(walk_state);
    if r.len() == 0 {
        assert(r =~= Seq::empty());
        choose|k: int| 0 <= k < pending.len() && pending[k] == Seq::<nat>::empty()
    } else {
        let parent = r.drop_last();
        assert(parent.push(r.last()) =~= r);
        if done.contains(parent) {
            assert(reachable(m, parent.push(r.last())));
            choose|k: int| 0 <= k < pending.len() && pending[k] == r
        } else {
            let k = lemma_waiting_ancestor(m, ids, done, pending, parent);
            assert(parent == r.take(parent.len() as int));
            if pending[k] != parent {
                assert(pending[k] =~= r.take(pending[k].len() as int));
            }
            k
        }
    }
}

/// Every branch that comes before the top of the stack is done.
proof fn lemma_top_is_next(
    m: Pairs,
    ids: Reading,
    done: Set<Seq<nat>>,
    pending: Seq<Seq<nat>>,
    r: Seq<nat>,
)
    requires
        walk_state(m, ids, done, pending, None, 0),
        pending.len() > 0,
        reachable(m, r),
        comes_before(r, pending.last()),
    ensures
        done.contains(r),
{
    if !done.contains(r) {
        let top = pending.last();
        let last = pending.len() - 1;
        let k = lemma_waiting_ancestor(m, ids, done, pending, r);
        lemma_order_asymmetric(r, top);
        if k == last {
            if top == r {
            } else {
                assert(comes_before(top, r));
            }
        } else {
            reveal(walk_state);
            assert(parts_above(pending[last], pending[k]));
            let d = choose|d: int| branches_off(pending[last], pending[k], d);
            lemma_branches_off_below(top, pending[k], r, d);
            assert(parts_above(top, r));
        }
    }
}

/// Taking the branch on top of the stack in hand: it moves to `done`, and its children are
/// counted from 1. All branches that come before it are done, and all that are done come
/// before it.
proof fn lemma_walk_open(m: Pairs, ids: Reading, done: Set<Seq<nat>>, pending: Seq<Seq<nat>>)
    requires
        m.dom().finite(),
        walk_state(m, ids, done, pending, None, 0),
        pending.len() > 0,
        m.contains_key(name_key(pending.last())),
    ensures
        walk_state(
            m,
            ids,
            done.insert(pending.last()),
            pending.drop_last(),
            Some(pending.last()),
            1,
        ),
        !done.contains(pending.last()),
        done.insert(pending.last()).len() == done.len() + 1,
        done.insert(pending.last()).len() <= m.dom().len(),
        forall|q: Seq<nat>| #[trigger] done.contains(q) ==> comes_before(q, pending.last()),
{
    let path = pending.last();
    let waiting = pending.drop_last();
    let more = done.insert(path);
    let last = pending.len() - 1;
    assert forall|q: Seq<nat>, r: Seq<nat>| #[trigger]
        comes_before(r, q) && more.contains(q) && reachable(m, r) implies more.contains(r) by {
        if q == path {
            lemma_top_is_next(m, ids, done, pending, r);
        } else {
            reveal(walk_state);
        }
    }
    reveal(walk_state);
    assert(pending[last] == path);
    assert forall|q: Seq<nat>| #[trigger] done.contains(q) implies comes_before(q, path) by {
        lemma_order_total(q, path);
    }
    assert forall|p: Seq<nat>| more.contains(p) implies #[trigger] has_branch(m, p) by {}
    lemma_branch_count(m, more);
    assert forall|k: int| 0 <= k < waiting.len() implies {
        &&& reachable(m, #[trigger] waiting[k])
        &&& has_branch(m, waiting[k])
        &&& branch_id(m, ids, waiting[k]) is Some
        &&& !more.contains(waiting[k])
    } by {
        assert(waiting[k] == pending[k]);
        assert(parts_above(pending[last], pending[k]));
        let d = choose|d: int| branches_off(pending[last], pending[k], d);
    }
    assert forall|i: int, k: int| 0 <= i < k < waiting.len() implies #[trigger] parts_above(
        waiting[k],
        waiting[i],
    ) by {
        assert(waiting[i] == pending[i] && waiting[k] == pending[k]);
        assert(parts_above(pending[k], pending[i]));
    }
    assert forall|k: int| 0 <= k < waiting.len() && (#[trigger] waiting[k]).len() > 0
        implies more.contains(
        waiting[k].drop_last(),
    ) by {
        assert(waiting[k] == pending[k]);
    }
    assert forall|p: Seq<nat>, j: nat|
        more.contains(p) && j >= 1 && #[trigger] reachable(m, p.push(j)) implies more.contains(
        p.push(j),
    ) || waiting.contains(p.push(j)) || (Some(path) == Some(p) && j >= 1) by {
        let c = p.push(j);
        if p != path && !done.contains(c) {
            assert(pending.contains(c));
            let k = choose|k: int| 0 <= k < pending.len() && pending[k] == c;
            if k != last {
                assert(waiting[k] == c);
            }
        }
    }
    assert forall|p: Seq<nat>|
        (#[trigger] more.contains(p)) && p.len() > 0 && Some(path) == Some(
            p.drop_last(),
        ) implies p.last() < 1 by {
        if p != path {
            assert(done.contains(p.drop_last()));
        }
    }
    assert forall|k: int| 0 <= k < waiting.len() implies {
        ||| (#[trigger] waiting[k]).len() > 0 && waiting[k].drop_last() == path
            && waiting[k].last() < 1
        ||| parts_above(path, waiting[k])
    } by {
        assert(waiting[k] == pending[k]);
        assert(parts_above(pending[last], pending[k]));
    }
    if !done.contains(Seq::empty()) {
        let k = choose|k: int| 0 <= k < pending.len() && pending[k] == Seq::<nat>::empty();
        if k != last {
            assert(waiting[k] == Seq::<nat>::empty());
        }
    }
}

/// Child number `index` of the open branch has an identifier: it is a branch of the map, and
/// the map has more than `index` keys.
proof fn lemma_child_found(
    m: Pairs,
    ids: Reading,
    done: Set<Seq<nat>>,
    pending: Seq<Seq<nat>>,
    path: Seq<nat>,
    index: nat,
)
    requires
        m.dom().finite(),
        walk_state(m, ids, done, pending, Some(path), index),
        done.contains(path),
        index >= 1,
        forall|j: nat| 1 <= j <= index ==> #[trigger] has_branch(m, path.push(j)),
    ensures
        reachable(m, path.push(index)),
        index + 1 <= m.dom().len(),
{
    reveal(walk_state);
    let step = path.push(index);
    assert(step.drop_last() =~= path);
    assert forall|j: nat| 1 <= j <= step.last() implies #[trigger] has_branch(
        m,
        step.drop_last().push(j),
    ) by {
        assert(has_branch(m, path.push(j)));
    }
    lemma_sibling_count(m, path, index);
}

/// Child number `index` of the open branch has an identifier that parses: it is new, and it
/// goes on top of the stack.
proof fn lemma_walk_child(
    m: Pairs,
    ids: Reading,
    done: Set<Seq<nat>>,
    pending: Seq<Seq<nat>>,
    path: Seq<nat>,
    index: nat,
)
    requires
        walk_state(m, ids, done, pending, Some(path), index),
        done.contains(path),
        index >= 1,
        reachable(m, path.push(index)),
        has_branch(m, path.push(index)),
        branch_id(m, ids, path.push(index)) is Some,
    ensures
        walk_state(m, ids, done, pending.push(path.push(index)), Some(path), index + 1),
{
    reveal(walk_state);
    let step = path.push(index);
    let more = pending.push(step);
    let top = pending.len() as int;
    assert(step.drop_last() =~= path);
    assert(step.last() == index);
    assert(more[top] == step);
    assert forall|k: int| 0 <= k < pending.len() implies parts_above(
        step,
        #[trigger] pending[k],
    ) by {
        if pending[k].len() > 0 && pending[k].drop_last() == path && pending[k].last() < index {
            let d = path.len() as int;
            assert(step.take(d) =~= path);
            assert(pending[k].take(d) =~= path);
            assert(branches_off(step, pending[k], d));
        } else {
            let d = choose|d: int| branches_off(path, pending[k], d);
            assert(step.take(d) =~= path.take(d));
            assert(branches_off(step, pending[k], d));
        }
    }
    assert forall|k: int| 0 <= k < more.len() implies {
        &&& reachable(m, #[trigger] more[k])
        &&& has_branch(m, more[k])
        &&& branch_id(m, ids, more[k]) is Some
        &&& !done.contains(more[k])
    } by {
        if k < pending.len() {
            assert(more[k] == pending[k]);
        }
    }
    assert forall|i: int, k: int| 0 <= i < k < more.len() implies #[trigger] parts_above(
        more[k],
        more[i],
    ) by {
        assert(more[i] == pending[i]);
        if k < pending.len() {
            assert(more[k] == pending[k]);
            assert(parts_above(pending[k], pending[i]));
        } else {
            assert(parts_above(step, pending[i]));
        }
    }
    assert forall|k: int| 0 <= k < more.len() && (#[trigger] more[k]).len() > 0
        implies done.contains(
        more[k].drop_last(),
    ) by {
        if k < pending.len() {
            assert(more[k] == pending[k]);
        }
    }
    assert forall|p: Seq<nat>, j: nat|
        done.contains(p) && j >= 1 && #[trigger] reachable(m, p.push(j)) implies done.contains(
        p.push(j),
    ) || more.contains(p.push(j)) || (Some(path) == Some(p) && j >= index + 1) by {
        let c = p.push(j);
        if p == path && j == index {
            assert(more[top] == c);
        } else if pending.contains(c) {
            let k = choose|k: int| 0 <= k < pending.len() && pending[k] == c;
            assert(more[k] == c);
        }
    }
    assert forall|k: int| 0 <= k < more.len() implies {
        ||| (#[trigger] more[k]).len() > 0 && more[k].drop_last() == path && more[k].last() < index
            + 1
        ||| parts_above(path, more[k])
    } by {
        if k < pending.len() {
            assert(more[k] == pending[k]);
        }
    }
    if pending.contains(Seq::empty()) {
        let k = choose|k: int| 0 <= k < pending.len() && pending[k] == Seq::<nat>::empty();
        assert(more[k] == Seq::<nat>::empty());
    }
}

/// Child number `index` of the open branch has no identifier: the branch has no further
/// children, and its visit was clean.
proof fn lemma_walk_close(
    m: Pairs,
    ids: Reading,
    done: Set<Seq<nat>>,
    pending: Seq<Seq<nat>>,
    path: Seq<nat>,
    index: nat,
)
    requires
        walk_state(m, ids, done, pending, Some(path), index),
        index >= 1,
        forall|j: nat| 1 <= j < index
            ==> #[trigger] has_branch(m, path.push(j)) && branch_id(m, ids, path.push(j)) is Some,
        !has_branch(m, path.push(index)),
    ensures
        walk_state(m, ids, done, pending, None, 0),
{
    reveal(walk_state);
    assert forall|j: nat| #[trigger] reachable(m, path.push(j))
        implies branch_id(m, ids, path.push(j)) is Some by {
        assert(path.push(j).drop_last() =~= path);
        if j >= index {
            assert(has_branch(m, path.push(j).drop_last().push(index)));
        } else {
            assert(has_branch(m, path.push(j)));
        }
    }
    assert forall|p: Seq<nat>, j: nat|
        done.contains(p) && j >= 1 && #[trigger] reachable(m, p.push(j)) implies done.contains(
        p.push(j),
    ) || pending.contains(p.push(j)) by {
        if p == path && j >= index {
            assert(p.push(j).drop_last() =~= path);
            assert(has_branch(m, p.push(j).drop_last().push(index)));
        }
    }
}

/// The node of the branch that has just been closed joins the nodes, in the place of any
/// node with the same identifier.
proof fn lemma_nodes_insert(
    m: Pairs,
    ids: Reading,
    done: Set<Seq<nat>>,
    nodes: Map<u128, Snapshot>,
    path: Seq<nat>,
    node: Snapshot,
)
    requires
        nodes_state(m, ids, done, nodes),
        describes(m, ids, path, node@),
        forall|q: Seq<nat>| #[trigger] done.contains(q) ==> comes_before(q, path),
    ensures
        nodes_state(m, ids, done.insert(path), nodes.insert(node.uuid, node)),
{
    reveal(nodes_state);
    let more = done.insert(path);
    let grown = nodes.insert(node.uuid, node);
    assert forall|id: u128| #[trigger] grown.contains_key(id) implies grown[id].uuid == id
        && exists|p: Seq<nat>| #[trigger] kept_among(m, ids, more, p, grown[id]) by {
        if id == node.uuid {
            assert(kept_among(m, ids, more, path, grown[id]));
        } else {
            let p = choose|p: Seq<nat>| #[trigger] kept_among(m, ids, done, p, nodes[id]);
            assert(kept_among(m, ids, more, p, grown[id]));
        }
    }
}

/// When the stack is empty, every branch of the map is done.
proof fn lemma_walk_complete(m: Pairs, ids: Reading, done: Set<Seq<nat>>, path: Seq<nat>)
    requires
        walk_state(m, ids, done, Seq::empty(), None, 0),
        reachable(m, path),
    ensures
        done.contains(path),
        clean(m, ids, path),
    decreases path.len(),
{
    reveal(walk_state);
    if path.len() > 0 {
        let parent = path.drop_last();
        lemma_walk_complete(m, ids, done, parent);
        assert(parent.push(path.last()) =~= path);
        assert(reachable(m, parent.push(path.last())));
        assert(!Seq::<Seq<nat>>::empty().contains(path));
    } else {
        assert(path =~= Seq::empty());
        assert(!Seq::<Seq<nat>>::empty().contains(path));
    }
}

/// The nodes of a finished walk are the tree that the map describes, and no visit met a fault.
proof fn lemma_walk_tree(
    m: Pairs,
    ids: Reading,
    done: Set<Seq<nat>>,
    nodes: Map<u128, Snapshot>,
)
    requires
        walk_state(m, ids, done, Seq::empty(), None, 0),
        nodes_state(m, ids, done, nodes),
    ensures
        forall|path: Seq<nat>| #[trigger] reachable(m, path) ==> clean(m, ids, path),
        forall|path: Seq<nat>| !first_fault_at(m, ids, path),
        forall|path: Seq<nat>| #[trigger]
            reachable(m, path) ==> branch_id(m, ids, path) is Some && nodes.contains_key(
                branch_id(m, ids, path)->0,
            ),
        forall|id: u128| #[trigger]
            nodes.contains_key(id) ==> nodes[id].uuid == id && exists|path: Seq<nat>| #[trigger]
                keeps(m, ids, path, nodes[id]@),
{
    assert forall|p: Seq<nat>| #[trigger] reachable(m, p)
        implies done.contains(p) && clean(m, ids, p) by {
        lemma_walk_complete(m, ids, done, p);
    }
    reveal(walk_state);
    reveal(nodes_state);
    assert forall|id: u128| #[trigger] nodes.contains_key(id) implies nodes[id].uuid == id
        && exists|path: Seq<nat>| #[trigger] keeps(m, ids, path, nodes[id]@) by {
        let p = choose|p: Seq<nat>| #[trigger] kept_among(m, ids, done, p, nodes[id]);
        assert(keeps(m, ids, p, nodes[id]@));
    }
}

/// The visit of the branch on top of the stack meets a fault: it is the first fault of the
/// walk.
proof fn lemma_fault_on_top(
    m: Pairs,
    ids: Reading,
    done: Set<Seq<nat>>,
    pending: Seq<Seq<nat>>,
)
    requires
        walk_state(m, ids, done, pending, None, 0),
        pending.len() > 0,
        !clean(m, ids, pending.last()),
    ensures
        first_fault_at(m, ids, pending.last()),
{
    let path = pending.last();
    assert forall|q: Seq<nat>| #[trigger] comes_before(q, path) && reachable(m, q)
        implies clean(m, ids, q) by {
        lemma_top_is_next(m, ids, done, pending, q);
        reveal(walk_state);
    }
    reveal(walk_state);
    assert(pending[pending.len() - 1] == path);
}

/// The visit of the open branch meets a child whose identifier does not parse: it is the first
/// fault of the walk.
proof fn lemma_fault_in_child(
    m: Pairs,
    ids: Reading,
    done: Set<Seq<nat>>,
    pending: Seq<Seq<nat>>,
    path: Seq<nat>,
    index: nat,
)
    requires
        walk_state(m, ids, done, pending, Some(path), index),
        done.contains(path),
        reachable(m, path.push(index)),
        branch_id(m, ids, path.push(index)) is None,
    ensures
        first_fault_at(m, ids, path),
        m.contains_key(name_key(path)),
{
    reveal(walk_state);
    assert forall|q: Seq<nat>| #[trigger] comes_before(q, path) && reachable(m, q)
        implies clean(m, ids, q) by {
        assert(done.contains(q));
        if q == path {
            lemma_order_asymmetric(q, path);
        }
    }
}

/// Rebuilds the snapshot tree from the snapshot keys of a flat map, reading identifiers as
/// the `uuid` crate does.
///
/// A map without the root's two keys describes a machine without snapshots: the result is
/// `Ok(None)`. Otherwise the walk starts at the root. It fails with `BadFormat` where an
/// identifier does not parse, and with `MissingData` where a branch has no name, where the
/// map names no current snapshot, or where the current snapshot is none of the branches; of
/// several faults, the one that the walk meets first is reported.
pub fn get_from_map(map: &FlatMap) -> (r: Result<Option<Snapshots>, Error>)
    ensures
        !(map@.contains_key("SnapshotName"@) && map@.contains_key("SnapshotUUID"@))
            ==> r matches Ok(None),
        rebuilds(map@, readings(&Uuids), r),
        r matches Ok(Some(tree)) ==> tree.well_formed(),
{
    rebuild(map, &Uuids)
}

/// Rebuilds the snapshot tree from the snapshot keys of a flat map, reading identifiers with
/// the given reader.
pub fn rebuild<R: Identifiers>(map: &FlatMap, reader: &R) -> (r: Result<Option<Snapshots>, Error>)
    ensures
        !(map@.contains_key("SnapshotName"@) && map@.contains_key("SnapshotUUID"@))
            ==> r matches Ok(None),
        rebuilds(map@, readings(reader), r),
        r matches Ok(Some(tree)) ==> tree.well_formed(),
{
    let ghost m = map@;
    let ghost ids = readings(reader);
    let ghost top: Seq<nat> = Seq::empty();
    let total: usize = map.len();
    assert(uuid_key(top) =~= "SnapshotUUID"@);
    assert(name_key(top) =~= "SnapshotName"@);
    let root_text = match map.get("SnapshotName") {
        Some(_) => match map.get("SnapshotUUID") {
            Some(text) => text,
            None => {
                return Ok(None);
            },
        },
        None => {
            return Ok(None);
        },
    };
    let root = match reader.read(root_text.as_str()) {
        Some(id) => id,
        None => {
            return Err(
                Error::BadFormat(framed("Unable to parse root UUID '", root_text.as_str(), "'")),
            );
        },
    };
    let mut nodes: HashMap<u128, Snapshot> = HashMap::new();
    let mut stack: Vec<String> = Vec::new();
    stack.push(String::new());
    let ghost mut pending: Seq<Seq<nat>> = seq![top];
    let ghost mut done: Set<Seq<nat>> = Set::empty();
    proof {
        lemma_walk_start(m, ids);
        assert(pending[0] == top);
    }
    while stack.len() > 0
        invariant
            m == map@,
            ids == readings(reader),
            m.dom().finite(),
            total == m.dom().len(),
            has_root(m),
            branch_id(m, ids, Seq::empty()) == Some(root),
            stack.len() == pending.len(),
            forall|k: int|
                0 <= k < stack.len() ==> (#[trigger] stack[k])@ == branch_suffix(pending[k]),
            walk_state(m, ids, done, pending, None, 0),
            nodes_state(m, ids, done, nodes@),
            done.len() <= total,
        decreases total - done.len(),
    {
        let ghost path = pending.last();
        let ghost before = done;
        let branch = stack.pop().unwrap();
        let name_field = String::from_str("SnapshotName").concat(branch.as_str());
        let uuid_field = String::from_str("SnapshotUUID").concat(branch.as_str());
        proof {
            reveal(walk_state);
            assert(pending[pending.len() - 1] == path);
            assert(reachable(m, path) && has_branch(m, path) && branch_id(m, ids, path) is Some);
        }
        let name = match map.get(name_field.as_str()) {
            Some(name) => name,
            None => {
                proof {
                    lemma_fault_on_top(m, ids, done, pending);
                }
                return Err(
                    Error::MissingData(
                        framed("Can't find expected field '", name_field.as_str(), "'"),
                    ),
                );
            },
        };
        let id_text = map.get(uuid_field.as_str()).unwrap();
        let id = reader.read(id_text.as_str()).unwrap();
        proof {
            lemma_walk_open(m, ids, done, pending);
            done = done.insert(path);
            pending = pending.drop_last();
        }
        let mut children: Vec<u128> = Vec::new();
        let mut index: usize = 1;
        loop
            invariant
                m == map@,
                ids == readings(reader),
                m.dom().finite(),
                total == m.dom().len(),
                has_root(m),
                branch_id(m, ids, Seq::empty()) == Some(root),
                stack.len() == pending.len(),
                forall|k: int|
                    0 <= k < stack.len() ==> (#[trigger] stack[k])@ == branch_suffix(pending[k]),
                walk_state(m, ids, done, pending, Some(path), index as nat),
                done.contains(path),
                branch@ == branch_suffix(path),
                uuid_field@ == uuid_key(path),
                id_text@ == m[uuid_key(path)],
                1 <= index <= total,
                children.len() == index - 1,
                forall|j: nat|
                    1 <= j < index
                        ==> #[trigger] has_branch(m, path.push(j))
                            && branch_id(m, ids, path.push(j)) == Some(children[j - 1]),
            ensures
                !has_branch(m, path.push(index as nat)),
            decreases total - index,
        {
            let child = child_suffix(branch.as_str(), index);
            let key = String::from_str("SnapshotUUID").concat(child.as_str());
            let ghost step = path.push(index as nat);
            proof {
                assert(step.drop_last() =~= path);
                assert(child@ == branch_suffix(step));
            }
            match map.get(key.as_str()) {
                Some(text) => {
                    proof {
                        assert(has_branch(m, step));
                        lemma_child_found(m, ids, done, pending, path, index as nat);
                    }
                    let child_id = match reader.read(text.as_str()) {
                        Some(id) => id,
                        None => {
                            proof {
                                lemma_fault_in_child(m, ids, done, pending, path, index as nat);
                            }
                            return Err(
                                Error::BadFormat(
                                    framed("Unable to parse UUID '", id_text.as_str(), "' for '")
                                        .concat(uuid_field.as_str()).concat("'"),
                                ),
                            );
                        },
                    };
                    let ghost earlier = children@;
                    children.push(child_id);
                    stack.push(child);
                    proof {
                        lemma_walk_child(m, ids, done, pending, path, index as nat);
                        pending = pending.push(step);
                        assert forall|j: nat| 1 <= j < index + 1 implies #[trigger] has_branch(
                            m,
                            path.push(j),
                        ) && branch_id(m, ids, path.push(j)) == Some(children@[j - 1]) by {
                            if j < index {
                                assert(children@[j - 1] == earlier[j - 1]);
                            }
                        }
                    }
                    index += 1;
                },
                None => {
                    break ;
                },
            }
        }
        let node = Snapshot { name: name.clone(), uuid: id, desc: Vec::new(), children };
        proof {
            lemma_walk_close(m, ids, done, pending, path, index as nat);
            assert(node@.desc =~= Seq::empty());
            assert(describes(m, ids, path, node@));
            lemma_nodes_insert(m, ids, before, nodes@, path, node);
        }
        nodes.insert(id, node);
    }
    proof {
        assert(pending =~= Seq::empty());
        lemma_walk_tree(m, ids, done, nodes@);
    }
    let current_text = match map.get("CurrentSnapshotUUID") {
        Some(text) => text,
        None => {
            return Err(
                Error::MissingData(
                    String::from_str("Can't find expected field 'CurrentSnapshotUUID"),
                ),
            );
        },
    };
    let current = match reader.read(current_text.as_str()) {
        Some(id) => id,
        None => {
            return Err(
                Error::BadFormat(
                    framed("Unable to parse current UUID '", current_text.as_str(), "'"),
                ),
            );
        },
    };
    if !nodes.contains_key(&current) {
        return Err(
            Error::MissingData(
                framed("Can't find current snapshot '", current_text.as_str(), "'"),
            ),
        );
    }
    proof {
        let kept = choose|path: Seq<nat>| #[trigger] keeps(m, ids, path, nodes@[current]@);
        assert(reachable(m, kept) && branch_id(m, ids, kept) == ids(m[current_key()]));
        lemma_tree_is_closed(m, ids, nodes@, root, current);
    }
    Ok(Some(Snapshots { map: nodes, root, current }))
}

} // verus!
