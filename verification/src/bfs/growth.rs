use vstd::prelude::*;
use vstd::pervasive::cloned;
use crate::bfs::{
    is_chain, is_cut_short, is_expanded, is_found, is_found_at_once, is_kept, is_linked,
    is_offer, is_offered_at, is_reached, is_record_of, is_route, is_search, is_step,
    lemma_route, route, Visit, Visitor,
};
use crate::search_tree::{branch, is_child, is_tree, lemma_branch_length, Node};

verus! {

/// Whether node `i` of the tree is entry `at[i]` of the record: an entry that was taken in
/// and is kept as the state of the node, with the same depth, whose parent is the entry of
/// the parent of the node.
pub(crate) open spec fn sits_at<T, V>(
    tree: Seq<Node<T>>,
    log: Seq<Visit<T, V>>,
    at: Seq<int>,
    i: int,
) -> bool {
    let entry = log[at[i]];
    &&& 0 <= at[i] < log.len()
    &&& entry.accepted
    &&& entry.kept == tree[i].state
    &&& entry.depth == tree[i].depth
    &&& match tree[i].parent {
        Some(q) => q < i && entry.parent == Some(at[q as int]),
        None => entry.parent is None,
    }
}

/// How the nodes of a search tree lie in the record of the search: node `i` is entry
/// `at[i]`, and the entries that were taken in are exactly the nodes.
pub(crate) open spec fn mirrors<T, V>(
    tree: Seq<Node<T>>,
    log: Seq<Visit<T, V>>,
    at: Seq<int>,
) -> bool {
    &&& at.len() == tree.len()
    &&& forall|i: int| 0 <= i < tree.len() ==> #[trigger] sits_at(tree, log, at, i)
    &&& forall|i: int, j: int| 0 <= i < j < tree.len() ==> #[trigger] at[i] < #[trigger] at[j]
    &&& forall|j: int|
        0 <= j < log.len() && (#[trigger] log[j]).accepted ==> exists|i: int|
            0 <= i < tree.len() && #[trigger] at[i] == j
}

/// Whether every entry of the record before entry `end`, the opening one apart, was
/// reached from an entry before entry `bound`.
pub(crate) open spec fn has_parents_before<T, V>(log: Seq<Visit<T, V>>, end: int, bound: int) -> bool {
    forall|j: int| 1 <= j < end && j < log.len() ==> (#[trigger] log[j]).parent->0 < bound
}

/// The way to a node in the tree is the way to its entry in the record.
pub(crate) proof fn lemma_branch_is_route<T, V>(
    tree: Seq<Node<T>>,
    log: Seq<Visit<T, V>>,
    at: Seq<int>,
    i: int,
)
    requires
        is_tree(tree),
        mirrors(tree, log, at),
        0 <= i < tree.len(),
    ensures
        branch(tree, i) == route(log, at[i]),
    decreases i,
{
    assert(sits_at(tree, log, at, i));
    if i > 0 {
        assert(is_child(tree, i));
        let q = tree[i].parent->0 as int;
        assert(sits_at(tree, log, at, q));
        lemma_branch_is_route(tree, log, at, q);
        assert(at[q] < at[i]);
    }
}

/// The root of the tree is the opening entry of the record.
pub(crate) proof fn lemma_root_is_opening<T, V>(
    tree: Seq<Node<T>>,
    log: Seq<Visit<T, V>>,
    at: Seq<int>,
    neighbors: spec_fn(T, Seq<T>) -> bool,
)
    requires
        is_tree(tree),
        mirrors(tree, log, at),
        is_search(log, neighbors),
    ensures
        at[0] == 0,
{
    assert(sits_at(tree, log, at, 0));
    if at[0] >= 1 {
        assert(is_reached(log, neighbors, at[0]));
    }
}

/// One more question to the memory, put at the end of a record, keeps the record one of
/// that memory.
pub(crate) proof fn lemma_chain_extends<T, V: Visitor<T>>(
    log: Seq<Visit<T, V>>,
    first: V,
    visit: Visit<T, V>,
)
    requires
        is_chain(log, first, visit.before),
        is_kept(visit),
    ensures
        is_chain(log.push(visit), first, visit.after),
{
    let longer = log.push(visit);
    assert forall|i: int| 0 <= i < longer.len() implies is_kept(#[trigger] longer[i]) by {
        if i < log.len() {
            assert(longer[i] == log[i]);
        }
    }
    assert forall|i: int| 0 <= i < longer.len() - 1 implies #[trigger] is_linked(longer, i) by {
        assert(longer[i] == log[i]);
        if i + 1 < log.len() {
            assert(is_linked(log, i));
            assert(longer[i + 1] == log[i + 1]);
        }
    }
}

/// One more entry, reached from an entry that was taken in, no shallower than any entry
/// before it and with a parent no earlier than theirs, keeps the record one of a search.
pub(crate) proof fn lemma_search_extends<T, V>(
    log: Seq<Visit<T, V>>,
    neighbors: spec_fn(T, Seq<T>) -> bool,
    visit: Visit<T, V>,
)
    requires
        is_search(log, neighbors),
        is_reached(log.push(visit), neighbors, log.len() as int),
        forall|j: int| 0 <= j < log.len() ==> (#[trigger] log[j]).depth <= visit.depth,
        forall|j: int| 1 <= j < log.len() ==> (#[trigger] log[j]).parent->0 <= visit.parent->0,
    ensures
        is_search(log.push(visit), neighbors),
{
    let longer = log.push(visit);
    assert forall|i: int| 1 <= i < longer.len() implies #[trigger] is_reached(
        longer,
        neighbors,
        i,
    ) by {
        if i < log.len() {
            assert(is_reached(log, neighbors, i));
            assert(longer[i] == log[i]);
            let p = log[i].parent->0;
            assert(longer[p] == log[p]);
        }
    }
    assert forall|i: int, j: int| 0 <= i <= j < longer.len() implies (#[trigger] longer[i]).depth
        <= (#[trigger] longer[j]).depth by {
        if j < log.len() {
            assert(longer[i] == log[i]);
            assert(longer[j] == log[j]);
        } else if i < log.len() {
            assert(longer[i] == log[i]);
        }
    }
    assert forall|i: int, j: int| 1 <= i <= j < longer.len() implies (#[trigger] longer[i]).parent->0
        <= (#[trigger] longer[j]).parent->0 by {
        if j < log.len() {
            assert(longer[i] == log[i]);
            assert(longer[j] == log[j]);
        } else if i < log.len() {
            assert(longer[i] == log[i]);
        }
    }
}

/// An entry that a record shows fully expanded stays so when the record grows by an
/// entry that was reached from another one.
pub(crate) proof fn lemma_expanded_extends<T, V>(
    log: Seq<Visit<T, V>>,
    neighbors: spec_fn(T, Seq<T>) -> bool,
    p: int,
    visit: Visit<T, V>,
)
    requires
        0 <= p < log.len(),
        is_expanded(log, neighbors, p),
        visit.parent != Some(p),
    ensures
        is_expanded(log.push(visit), neighbors, p),
{
    let longer = log.push(visit);
    let (offered, base) = choose|offered: Seq<T>, base: int| #[trigger]
        is_offered_at(log, neighbors, p, offered, base);
    assert(longer[p] == log[p]);
    assert forall|k: int| 0 <= k < offered.len() implies #[trigger] is_offer(
        longer,
        offered,
        base,
        k,
        p,
    ) by {
        assert(is_offer(log, offered, base, k, p));
        assert(longer[base + k] == log[base + k]);
    }
    assert forall|i: int|
        0 <= i < longer.len() && (#[trigger] longer[i]).parent == Some(p) implies base <= i < base
        + offered.len() by {
        if i < log.len() {
            assert(longer[i] == log[i]);
        }
    }
    assert(is_offered_at(longer, neighbors, p, offered, base));
}

/// A question that was turned down adds no node to the tree.
pub(crate) proof fn lemma_mirrors_turned_down<T, V>(
    tree: Seq<Node<T>>,
    log: Seq<Visit<T, V>>,
    at: Seq<int>,
    visit: Visit<T, V>,
)
    requires
        mirrors(tree, log, at),
        !visit.accepted,
    ensures
        mirrors(tree, log.push(visit), at),
{
    let longer = log.push(visit);
    assert forall|i: int| 0 <= i < tree.len() implies #[trigger] sits_at(tree, longer, at, i) by {
        assert(sits_at(tree, log, at, i));
        assert(longer[at[i]] == log[at[i]]);
    }
    assert forall|j: int| 0 <= j < longer.len() && (#[trigger] longer[j]).accepted implies exists|
        i: int,
    | 0 <= i < tree.len() && #[trigger] at[i] == j by {
        assert(longer[j] == log[j]);
    }
}

/// A state that was taken in is the new last node of the tree and the new last entry of
/// the record.
pub(crate) proof fn lemma_mirrors_taken_in<T, V>(
    tree: Seq<Node<T>>,
    log: Seq<Visit<T, V>>,
    at: Seq<int>,
    visit: Visit<T, V>,
    node: Node<T>,
)
    requires
        mirrors(tree, log, at),
        visit.accepted,
        node.state == visit.kept,
        node.depth == visit.depth,
        node.parent matches Some(q) && q < tree.len() && visit.parent == Some(at[q as int]),
    ensures
        mirrors(tree.push(node), log.push(visit), at.push(log.len() as int)),
{
    let longer = log.push(visit);
    let taller = tree.push(node);
    let places = at.push(log.len() as int);
    assert forall|i: int| 0 <= i < taller.len() implies #[trigger] sits_at(
        taller,
        longer,
        places,
        i,
    ) by {
        if i < tree.len() {
            assert(sits_at(tree, log, at, i));
            assert(places[i] == at[i]);
            assert(taller[i] == tree[i]);
            assert(longer[at[i]] == log[at[i]]);
            if tree[i].parent is Some {
                let q = tree[i].parent->0 as int;
                assert(places[q] == at[q]);
            }
        } else {
            let q = node.parent->0 as int;
            assert(places[q] == at[q]);
        }
    }
    assert forall|i: int, j: int| 0 <= i < j < taller.len() implies #[trigger] places[i]
        < #[trigger] places[j] by {
        assert(sits_at(tree, log, at, i));
        assert(places[i] == at[i]);
        if j < tree.len() {
            assert(places[j] == at[j]);
        }
    }
    assert forall|j: int| 0 <= j < longer.len() && (#[trigger] longer[j]).accepted implies exists|
        i: int,
    | 0 <= i < taller.len() && #[trigger] places[i] == j by {
        if j < log.len() {
            assert(longer[j] == log[j]);
            let i = choose|i: int| 0 <= i < tree.len() && #[trigger] at[i] == j;
            assert(places[i] == j);
        } else {
            assert(places[tree.len() as int] == j);
        }
    }
}

/// What holds of the tree and the record of a search as long as it has found no goal: the
/// first `head` nodes are fully expanded, and no entry lies deeper than the successors
/// of node `head`.
pub(crate) open spec fn is_growing<T: Clone, V: Visitor<T>>(
    tree: Seq<Node<T>>,
    log: Seq<Visit<T, V>>,
    at: Seq<int>,
    start: T,
    is_goal: spec_fn(T, bool) -> bool,
    neighbors: spec_fn(T, Seq<T>) -> bool,
    first: V,
    now: V,
    head: int,
) -> bool {
    &&& is_tree(tree)
    &&& 0 <= head <= tree.len()
    &&& is_chain(log, first, now)
    &&& is_search(log, neighbors)
    &&& log[0].state == start
    &&& cloned(start, log[0].kept)
    &&& mirrors(tree, log, at)
    &&& forall|i: int| 0 <= i < tree.len() ==> is_goal(log[#[trigger] at[i]].state, false)
    &&& forall|i: int| 0 <= i < head ==> is_expanded(log, neighbors, #[trigger] at[i])
    &&& head < tree.len() ==> forall|j: int|
        0 <= j < log.len() ==> (#[trigger] log[j]).depth <= tree[head].depth + 1
}

/// What holds between two expansions: the search has found no goal yet, and no entry was
/// reached from node `head` or a later one.
#[verifier::opaque]
pub(crate) closed spec fn is_underway<T: Clone, V: Visitor<T>>(
    tree: Seq<Node<T>>,
    log: Seq<Visit<T, V>>,
    at: Seq<int>,
    start: T,
    is_goal: spec_fn(T, bool) -> bool,
    neighbors: spec_fn(T, Seq<T>) -> bool,
    first: V,
    now: V,
    head: int,
) -> bool {
    &&& is_growing(tree, log, at, start, is_goal, neighbors, first, now, head)
    &&& head < tree.len() ==> has_parents_before(log, log.len() as int, at[head])
}

/// What holds while node `head` is expanded: the first `done` of its successors were put
/// to the memory, they are the last entries of the record, and no other entry was
/// reached from node `head` or a later one.
#[verifier::opaque]
pub(crate) closed spec fn is_expanding<T: Clone, V: Visitor<T>>(
    tree: Seq<Node<T>>,
    log: Seq<Visit<T, V>>,
    at: Seq<int>,
    start: T,
    is_goal: spec_fn(T, bool) -> bool,
    neighbors: spec_fn(T, Seq<T>) -> bool,
    first: V,
    now: V,
    head: int,
    offered: Seq<T>,
    done: int,
) -> bool {
    &&& is_growing(tree, log, at, start, is_goal, neighbors, first, now, head)
    &&& head < tree.len()
    &&& neighbors(tree[head].state, offered)
    &&& 0 <= done <= offered.len()
    &&& done < log.len()
    &&& forall|k: int|
        0 <= k < done ==> #[trigger] is_offer(log, offered, log.len() - done, k, at[head])
    &&& has_parents_before(log, log.len() - done, at[head])
}

/// A search whose start was taken in and is no goal is underway, with nothing expanded.
pub(crate) proof fn lemma_search_begins<T: Clone, V: Visitor<T>>(
    start: T,
    is_goal: spec_fn(T, bool) -> bool,
    neighbors: spec_fn(T, Seq<T>) -> bool,
    visit: Visit<T, V>,
)
    requires
        visit.state == start,
        cloned(start, visit.kept),
        is_kept(visit),
        visit.accepted,
        visit.depth == 0,
        visit.parent is None,
        is_goal(visit.state, false),
    ensures
        is_underway(
            seq![Node { state: visit.kept, parent: None, depth: 0 }],
            seq![visit],
            seq![0int],
            start,
            is_goal,
            neighbors,
            visit.before,
            visit.after,
            0,
        ),
{
    reveal(is_underway);
    let tree = seq![Node { state: visit.kept, parent: None, depth: 0 }];
    let log = seq![visit];
    let at = seq![0int];
    assert(at[0] == 0);
    assert(log[0] == visit);
    assert(sits_at(tree, log, at, 0));
    assert(mirrors(tree, log, at));
}

/// The expansion of the next node begins with none of its successors done.
pub(crate) proof fn lemma_expansion_begins<T: Clone, V: Visitor<T>>(
    tree: Seq<Node<T>>,
    log: Seq<Visit<T, V>>,
    at: Seq<int>,
    start: T,
    is_goal: spec_fn(T, bool) -> bool,
    neighbors: spec_fn(T, Seq<T>) -> bool,
    first: V,
    now: V,
    head: int,
    offered: Seq<T>,
)
    requires
        is_underway(tree, log, at, start, is_goal, neighbors, first, now, head),
        head < tree.len(),
        neighbors(tree[head].state, offered),
    ensures
        is_expanding(tree, log, at, start, is_goal, neighbors, first, now, head, offered, 0),
{
    reveal(is_underway);
    reveal(is_expanding);
}

/// What a record gains when one more successor of the node under expansion was put to
/// the memory.
pub(crate) proof fn lemma_visit_recorded<T, V: Visitor<T>>(
    tree: Seq<Node<T>>,
    log: Seq<Visit<T, V>>,
    at: Seq<int>,
    neighbors: spec_fn(T, Seq<T>) -> bool,
    first: V,
    head: int,
    offered: Seq<T>,
    done: int,
    visit: Visit<T, V>,
)
    requires
        is_chain(log, first, visit.before),
        is_kept(visit),
        is_search(log, neighbors),
        mirrors(tree, log, at),
        0 <= head < tree.len(),
        visit.parent == Some(at[head]),
        visit.kept == visit.state,
        visit.depth == tree[head].depth + 1,
        forall|j: int| 0 <= j < log.len() ==> (#[trigger] log[j]).depth <= tree[head].depth + 1,
        neighbors(tree[head].state, offered),
        0 <= done < offered.len(),
        offered[done] == visit.state,
        done < log.len(),
        forall|k: int|
            0 <= k < done ==> #[trigger] is_offer(log, offered, log.len() - done, k, at[head]),
        has_parents_before(log, log.len() - done, at[head]),
        forall|i: int| 0 <= i < head ==> is_expanded(log, neighbors, #[trigger] at[i]),
    ensures
        is_chain(log.push(visit), first, visit.after),
        is_search(log.push(visit), neighbors),
        forall|k: int|
            0 <= k < done + 1 ==> #[trigger] is_offer(
                log.push(visit),
                offered,
                log.len() - done,
                k,
                at[head],
            ),
        has_parents_before(log.push(visit), log.len() - done, at[head]),
        forall|i: int| 0 <= i < head ==> is_expanded(log.push(visit), neighbors, #[trigger] at[i]),
        forall|j: int|
            0 <= j < log.push(visit).len() ==> (#[trigger] log.push(visit)[j]).depth
                <= tree[head].depth + 1,
        log.push(visit)[0] == log[0],
{
    let longer = log.push(visit);
    let parent_entry = at[head];
    let base = log.len() - done;
    assert(sits_at(tree, log, at, head));
    assert(is_step(neighbors, log[parent_entry].kept, visit.state)) by {
        assert(offered.contains(visit.state));
    }
    lemma_chain_extends(log, first, visit);
    assert(longer[parent_entry] == log[parent_entry]);
    assert(is_reached(longer, neighbors, log.len() as int));
    assert forall|j: int| 1 <= j < log.len() implies (#[trigger] log[j]).parent->0
        <= visit.parent->0 by {
        if j >= base {
            assert(is_offer(log, offered, base, j - base, parent_entry));
        }
    }
    lemma_search_extends(log, neighbors, visit);
    assert forall|i: int| 0 <= i < head implies is_expanded(longer, neighbors, #[trigger] at[i]) by {
        assert(sits_at(tree, log, at, i));
        lemma_expanded_extends(log, neighbors, at[i], visit);
    }
    assert forall|k: int| 0 <= k < done + 1 implies #[trigger] is_offer(
        longer,
        offered,
        base,
        k,
        parent_entry,
    ) by {
        if k < done {
            assert(is_offer(log, offered, base, k, parent_entry));
            assert(longer[base + k] == log[base + k]);
        } else {
            assert(longer[base + k] == visit);
        }
    }
    assert forall|j: int| 1 <= j < base && j < longer.len() implies (#[trigger] longer[j]).parent->0
        < parent_entry by {
        assert(longer[j] == log[j]);
    }
    assert forall|j: int| 0 <= j < longer.len() implies (#[trigger] longer[j]).depth
        <= tree[head].depth + 1 by {
        if j < log.len() {
            assert(longer[j] == log[j]);
        }
    }
}

/// The questions about the states that were taken in stay in the record when it grows.
pub(crate) proof fn lemma_no_goal_yet<T, V>(
    tree: Seq<Node<T>>,
    log: Seq<Visit<T, V>>,
    at: Seq<int>,
    is_goal: spec_fn(T, bool) -> bool,
    visit: Visit<T, V>,
)
    requires
        mirrors(tree, log, at),
        forall|i: int| 0 <= i < tree.len() ==> is_goal(log[#[trigger] at[i]].state, false),
    ensures
        forall|i: int|
            0 <= i < tree.len() ==> is_goal(log.push(visit)[#[trigger] at[i]].state, false),
{
    assert forall|i: int| 0 <= i < tree.len() implies is_goal(
        log.push(visit)[#[trigger] at[i]].state,
        false,
    ) by {
        assert(sits_at(tree, log, at, i));
        assert(log.push(visit)[at[i]] == log[at[i]]);
    }
}

/// A successor that the memory turned down is done, and the tree stays as it is.
pub(crate) proof fn lemma_successor_turned_down<T: Clone, V: Visitor<T>>(
    tree: Seq<Node<T>>,
    log: Seq<Visit<T, V>>,
    at: Seq<int>,
    start: T,
    is_goal: spec_fn(T, bool) -> bool,
    neighbors: spec_fn(T, Seq<T>) -> bool,
    first: V,
    head: int,
    offered: Seq<T>,
    done: int,
    visit: Visit<T, V>,
)
    requires
        is_expanding(
            tree,
            log,
            at,
            start,
            is_goal,
            neighbors,
            first,
            visit.before,
            head,
            offered,
            done,
        ),
        done < offered.len(),
        is_kept(visit),
        !visit.accepted,
        visit.state == offered[done],
        visit.kept == visit.state,
        0 <= head < tree.len(),
        visit.depth == tree[head].depth + 1,
        visit.parent == Some(at[head]),
    ensures
        is_expanding(
            tree,
            log.push(visit),
            at,
            start,
            is_goal,
            neighbors,
            first,
            visit.after,
            head,
            offered,
            done + 1,
        ),
{
    reveal(is_expanding);
    lemma_visit_recorded(tree, log, at, neighbors, first, head, offered, done, visit);
    lemma_mirrors_turned_down(tree, log, at, visit);
    lemma_no_goal_yet(tree, log, at, is_goal, visit);
    let longer = log.push(visit);
    assert(longer.len() - (done + 1) == log.len() - done);
    assert forall|k: int| 0 <= k < done + 1 implies #[trigger] is_offer(
        longer,
        offered,
        longer.len() - (done + 1),
        k,
        at[head],
    ) by {
        assert(is_offer(longer, offered, log.len() - done, k, at[head]));
    }
}

/// What the tree and the record gain when a successor of the node under expansion is
/// taken in.
pub(crate) proof fn lemma_grows<T, V: Visitor<T>>(
    tree: Seq<Node<T>>,
    log: Seq<Visit<T, V>>,
    at: Seq<int>,
    neighbors: spec_fn(T, Seq<T>) -> bool,
    first: V,
    head: usize,
    offered: Seq<T>,
    done: int,
    visit: Visit<T, V>,
)
    requires
        is_tree(tree),
        is_chain(log, first, visit.before),
        is_kept(visit),
        visit.accepted,
        is_search(log, neighbors),
        mirrors(tree, log, at),
        head < tree.len(),
        visit.parent == Some(at[head as int]),
        visit.kept == visit.state,
        visit.depth == tree[head as int].depth + 1,
        forall|j: int|
            0 <= j < log.len() ==> (#[trigger] log[j]).depth <= tree[head as int].depth + 1,
        neighbors(tree[head as int].state, offered),
        0 <= done < offered.len(),
        offered[done] == visit.state,
        done < log.len(),
        forall|k: int|
            0 <= k < done ==> #[trigger] is_offer(
                log,
                offered,
                log.len() - done,
                k,
                at[head as int],
            ),
        has_parents_before(log, log.len() - done, at[head as int]),
        forall|i: int| 0 <= i < head ==> is_expanded(log, neighbors, #[trigger] at[i]),
    ensures
        ({
            let taller = tree.push(
                Node { state: visit.state, parent: Some(head), depth: visit.depth },
            );
            let longer = log.push(visit);
            let places = at.push(log.len() as int);
            &&& is_tree(taller)
            &&& mirrors(taller, longer, places)
            &&& is_chain(longer, first, visit.after)
            &&& is_search(longer, neighbors)
            &&& forall|k: int|
                0 <= k < done + 1 ==> #[trigger] is_offer(
                    longer,
                    offered,
                    longer.len() - (done + 1),
                    k,
                    places[head as int],
                )
            &&& has_parents_before(longer, longer.len() - (done + 1), places[head as int])
            &&& forall|i: int| 0 <= i < head ==> is_expanded(longer, neighbors, #[trigger] places[i])
            &&& forall|j: int|
                0 <= j < longer.len() ==> (#[trigger] longer[j]).depth <= taller[head as int].depth
                    + 1
            &&& longer[0] == log[0]
            &&& taller[head as int] == tree[head as int]
            &&& places[head as int] == at[head as int]
            &&& forall|i: int| 0 <= i < tree.len() ==> #[trigger] taller[i] == tree[i]
            &&& forall|i: int| 0 <= i < tree.len() ==> #[trigger] places[i] == at[i]
        }),
{
    let node = Node { state: visit.state, parent: Some(head), depth: visit.depth };
    let taller = tree.push(node);
    let longer = log.push(visit);
    let places = at.push(log.len() as int);
    lemma_visit_recorded(tree, log, at, neighbors, first, head as int, offered, done, visit);
    lemma_mirrors_taken_in(tree, log, at, visit, node);
    assert forall|i: int| 1 <= i < taller.len() implies #[trigger] is_child(taller, i) by {
        if i < tree.len() {
            assert(is_child(tree, i));
            assert(taller[i] == tree[i]);
            let p = tree[i].parent->0 as int;
            assert(taller[p] == tree[p]);
        } else {
            assert(taller[head as int] == tree[head as int]);
        }
    }
    assert(taller[0] == tree[0]);
    assert forall|i: int| 0 <= i < head implies is_expanded(
        longer,
        neighbors,
        #[trigger] places[i],
    ) by {
        assert(places[i] == at[i]);
    }
    assert(taller[head as int] == tree[head as int]);
    assert(places[head as int] == at[head as int]);
    assert(longer.len() - (done + 1) == log.len() - done);
    assert forall|k: int| 0 <= k < done + 1 implies #[trigger] is_offer(
        longer,
        offered,
        longer.len() - (done + 1),
        k,
        places[head as int],
    ) by {
        assert(is_offer(longer, offered, log.len() - done, k, at[head as int]));
    }
    assert forall|i: int| 0 <= i < tree.len() implies #[trigger] taller[i] == tree[i] by {}
    assert forall|i: int| 0 <= i < tree.len() implies #[trigger] places[i] == at[i] by {}
}

/// A successor that the memory took in, and that is no goal, is done and is the new last
/// node of the tree.
pub(crate) proof fn lemma_successor_taken_in<T: Clone, V: Visitor<T>>(
    tree: Seq<Node<T>>,
    log: Seq<Visit<T, V>>,
    at: Seq<int>,
    start: T,
    is_goal: spec_fn(T, bool) -> bool,
    neighbors: spec_fn(T, Seq<T>) -> bool,
    first: V,
    head: usize,
    offered: Seq<T>,
    done: int,
    visit: Visit<T, V>,
)
    requires
        is_expanding(
            tree,
            log,
            at,
            start,
            is_goal,
            neighbors,
            first,
            visit.before,
            head as int,
            offered,
            done,
        ),
        done < offered.len(),
        is_kept(visit),
        visit.accepted,
        visit.state == offered[done],
        visit.kept == visit.state,
        head < tree.len(),
        visit.depth == tree[head as int].depth + 1,
        visit.parent == Some(at[head as int]),
        is_goal(visit.state, false),
    ensures
        is_expanding(
            tree.push(Node { state: visit.state, parent: Some(head), depth: visit.depth }),
            log.push(visit),
            at.push(log.len() as int),
            start,
            is_goal,
            neighbors,
            first,
            visit.after,
            head as int,
            offered,
            done + 1,
        ),
{
    reveal(is_expanding);
    lemma_grows(tree, log, at, neighbors, first, head, offered, done, visit);
    lemma_no_goal_yet(tree, log, at, is_goal, visit);
    let taller = tree.push(Node { state: visit.state, parent: Some(head), depth: visit.depth });
    let longer = log.push(visit);
    let places = at.push(log.len() as int);
    assert forall|i: int| 0 <= i < taller.len() implies is_goal(
        longer[#[trigger] places[i]].state,
        false,
    ) by {
        if i < tree.len() {
            assert(places[i] == at[i]);
        }
    }
}

/// The way in the tree to the state taken in last, where that state is a goal, is a way
/// from the start to a goal, and it is the way in the record to its last entry.
pub(crate) proof fn lemma_finding_route<T: Clone, V: Visitor<T>>(
    tree: Seq<Node<T>>,
    log: Seq<Visit<T, V>>,
    at: Seq<int>,
    start: T,
    is_goal: spec_fn(T, bool) -> bool,
    neighbors: spec_fn(T, Seq<T>) -> bool,
)
    requires
        is_tree(tree),
        mirrors(tree, log, at),
        is_search(log, neighbors),
        log[0].state == start,
        cloned(start, log[0].kept),
        at[tree.len() - 1] == log.len() - 1,
        is_goal(log[log.len() - 1].state, true),
    ensures
        branch(tree, tree.len() - 1) == route(log, log.len() - 1),
        is_route(start, is_goal, neighbors, branch(tree, tree.len() - 1)),
        tree.len() == 1 ==> branch(tree, tree.len() - 1).len() == 1 && log.len() == 1,
        tree.len() > 1 ==> log.len() > 1,
        log[log.len() - 1].accepted,
{
    let last = log.len() - 1;
    let end = tree.len() - 1;
    lemma_branch_is_route(tree, log, at, end);
    lemma_branch_length(tree, end);
    lemma_route(log, neighbors, last);
    lemma_root_is_opening(tree, log, at, neighbors);
    assert(sits_at(tree, log, at, end));
    if end > 0 {
        assert(is_child(tree, end));
        assert(at[0] < at[end]);
        assert(is_reached(log, neighbors, last));
    }
}

/// Where the state taken in last is the only goal among the nodes of the tree, and the
/// nodes before its parent are expanded, the record shows the same of its entries.
pub(crate) proof fn lemma_finding_closed<T, V>(
    tree: Seq<Node<T>>,
    log: Seq<Visit<T, V>>,
    at: Seq<int>,
    is_goal: spec_fn(T, bool) -> bool,
    neighbors: spec_fn(T, Seq<T>) -> bool,
    head: int,
)
    requires
        tree.len() >= 1,
        mirrors(tree, log, at),
        at[tree.len() - 1] == log.len() - 1,
        forall|i: int| 0 <= i < tree.len() - 1 ==> is_goal(log[#[trigger] at[i]].state, false),
        tree.len() > 1 ==> 0 <= head < tree.len() - 1 && tree[tree.len() - 1].parent is Some
            && tree[tree.len() - 1].parent->0 == head,
        forall|i: int| 0 <= i < head ==> is_expanded(log, neighbors, #[trigger] at[i]),
    ensures
        forall|i: int|
            0 <= i < log.len() - 1 && (#[trigger] log[i]).accepted ==> is_goal(log[i].state, false),
        forall|p: int|
            0 <= p < log.len() - 1 && (#[trigger] log[p]).accepted && log[log.len() - 1].parent is Some
                && p < log[log.len() - 1].parent->0 ==> is_expanded(log, neighbors, p),
        tree.len() > 1 ==> log[log.len() - 1].parent == Some(at[head]),
{
    let last = log.len() - 1;
    let end = tree.len() - 1;
    assert(sits_at(tree, log, at, end));
    assert forall|i: int| 0 <= i < last && (#[trigger] log[i]).accepted implies is_goal(
        log[i].state,
        false,
    ) by {
        let n = choose|n: int| 0 <= n < tree.len() && #[trigger] at[n] == i;
        assert(n < end);
    }
    assert forall|p: int|
        0 <= p < last && (#[trigger] log[p]).accepted && log[last].parent is Some && p
            < log[last].parent->0 implies is_expanded(log, neighbors, p) by {
        let n = choose|n: int| 0 <= n < tree.len() && #[trigger] at[n] == p;
        if n > head {
            assert(at[head] < at[n]);
        }
    }
}

/// When the state taken in last is a goal, the record ends with the finding of the way to
/// it.
pub(crate) proof fn lemma_record_of_finding<T: Clone, V: Visitor<T>>(
    tree: Seq<Node<T>>,
    log: Seq<Visit<T, V>>,
    at: Seq<int>,
    start: T,
    is_goal: spec_fn(T, bool) -> bool,
    neighbors: spec_fn(T, Seq<T>) -> bool,
    head: int,
    offered: Seq<T>,
    base: int,
)
    requires
        is_tree(tree),
        mirrors(tree, log, at),
        is_search(log, neighbors),
        log[0].state == start,
        cloned(start, log[0].kept),
        at[tree.len() - 1] == log.len() - 1,
        is_goal(log[log.len() - 1].state, true),
        forall|i: int| 0 <= i < tree.len() - 1 ==> is_goal(log[#[trigger] at[i]].state, false),
        tree.len() > 1 ==> 0 <= head < tree.len() - 1 && tree[tree.len() - 1].parent is Some
            && tree[tree.len() - 1].parent->0 == head && is_cut_short(
            log,
            neighbors,
            at[head],
            offered,
            base,
        ),
        forall|i: int| 0 <= i < head ==> is_expanded(log, neighbors, #[trigger] at[i]),
    ensures
        is_found(log, is_goal, neighbors, branch(tree, tree.len() - 1)),
        is_route(start, is_goal, neighbors, branch(tree, tree.len() - 1)),
        tree.len() == 1 ==> branch(tree, tree.len() - 1).len() == 1 && log.len() == 1,
{
    lemma_finding_route(tree, log, at, start, is_goal, neighbors);
    lemma_finding_closed(tree, log, at, is_goal, neighbors, head);
}

/// A search in which the start was taken in and turned out to be no goal was not sure to
/// end at once.
pub(crate) proof fn lemma_not_found_at_once<T: Clone, V: Visitor<T>>(
    log: Seq<Visit<T, V>>,
    start: T,
    is_goal: spec_fn(T, bool) -> bool,
    first: V,
)
    requires
        log.len() >= 1,
        log[0].state == start,
        is_goal(log[0].state, false),
    ensures
        !is_found_at_once(start, is_goal, first),
{
}

/// A record that ends with the first `done` successors of an entry, and in which nothing
/// else was reached from that entry, ends in the middle of its expansion.
pub(crate) proof fn lemma_expansion_cut_short<T, V>(
    log: Seq<Visit<T, V>>,
    neighbors: spec_fn(T, Seq<T>) -> bool,
    p: int,
    offered: Seq<T>,
    done: int,
)
    requires
        log.len() >= 1,
        log[0].parent is None,
        0 <= p < log.len(),
        neighbors(log[p].kept, offered),
        1 <= done <= offered.len(),
        done < log.len(),
        forall|k: int| 0 <= k < done ==> #[trigger] is_offer(log, offered, log.len() - done, k, p),
        has_parents_before(log, log.len() - done, p),
    ensures
        is_cut_short(log, neighbors, p, offered, log.len() - done),
{
    let base = log.len() - done;
    assert forall|i: int| 0 <= i < log.len() && (#[trigger] log[i]).parent == Some(p) implies base
        <= i by {
        if 1 <= i < base {
            assert(log[i].parent->0 < p);
        }
    }
}

/// A successor that the memory took in and that is a goal ends the search: the way to it
/// in the tree is the path that was found.
pub(crate) proof fn lemma_goal_taken_in<T: Clone, V: Visitor<T>>(
    tree: Seq<Node<T>>,
    log: Seq<Visit<T, V>>,
    at: Seq<int>,
    start: T,
    is_goal: spec_fn(T, bool) -> bool,
    neighbors: spec_fn(T, Seq<T>) -> bool,
    first: V,
    head: usize,
    offered: Seq<T>,
    done: int,
    visit: Visit<T, V>,
    path: Seq<T>,
)
    requires
        is_expanding(
            tree,
            log,
            at,
            start,
            is_goal,
            neighbors,
            first,
            visit.before,
            head as int,
            offered,
            done,
        ),
        done < offered.len(),
        is_kept(visit),
        visit.accepted,
        visit.state == offered[done],
        visit.kept == visit.state,
        head < tree.len(),
        visit.depth == tree[head as int].depth + 1,
        visit.parent == Some(at[head as int]),
        is_goal(visit.state, true),
        path == branch(
            tree.push(Node { state: visit.state, parent: Some(head), depth: visit.depth }),
            tree.len() as int,
        ),
    ensures
        is_record_of(log.push(visit), start, is_goal, neighbors, first, visit.after, Some(path)),
        is_route(start, is_goal, neighbors, path),
        !is_found_at_once(start, is_goal, first),
        log[0].accepted,
{
    reveal(is_expanding);
    let node = Node { state: visit.state, parent: Some(head), depth: visit.depth };
    let taller = tree.push(node);
    let longer = log.push(visit);
    let places = at.push(log.len() as int);
    let base = log.len() - done;
    lemma_grows(tree, log, at, neighbors, first, head, offered, done, visit);
    lemma_no_goal_yet(tree, log, at, is_goal, visit);
    lemma_root_is_opening(tree, log, at, neighbors);
    assert(sits_at(tree, log, at, 0));
    assert forall|i: int| 0 <= i < taller.len() - 1 implies is_goal(
        longer[#[trigger] places[i]].state,
        false,
    ) by {
        assert(places[i] == at[i]);
    }
    assert(taller[tree.len() as int] == node);
    assert(places[taller.len() - 1] == longer.len() - 1);
    assert(sits_at(tree, log, at, head as int));
    assert(longer[at[head as int]] == log[at[head as int]]);
    lemma_expansion_cut_short(longer, neighbors, places[head as int], offered, done + 1);
    lemma_record_of_finding(
        taller,
        longer,
        places,
        start,
        is_goal,
        neighbors,
        head as int,
        offered,
        base,
    );
    assert(is_goal(log[at[0]].state, false));
    lemma_not_found_at_once(log, start, is_goal, first);
}

/// Once all successors of a node are done the node is expanded, and the search is
/// underway for the next node.
pub(crate) proof fn lemma_expansion_ends<T: Clone, V: Visitor<T>>(
    tree: Seq<Node<T>>,
    log: Seq<Visit<T, V>>,
    at: Seq<int>,
    start: T,
    is_goal: spec_fn(T, bool) -> bool,
    neighbors: spec_fn(T, Seq<T>) -> bool,
    first: V,
    now: V,
    head: int,
    offered: Seq<T>,
)
    requires
        is_expanding(
            tree,
            log,
            at,
            start,
            is_goal,
            neighbors,
            first,
            now,
            head,
            offered,
            offered.len() as int,
        ),
    ensures
        is_underway(tree, log, at, start, is_goal, neighbors, first, now, head + 1),
{
    reveal(is_underway);
    reveal(is_expanding);
    let base = log.len() - offered.len();
    assert(sits_at(tree, log, at, head));
    assert forall|i: int|
        0 <= i < log.len() && (#[trigger] log[i]).parent == Some(at[head]) implies base <= i < base
        + offered.len() by {
        if i >= 1 && i < base {
            assert(log[i].parent->0 < at[head]);
        }
    }
    assert(is_offered_at(log, neighbors, at[head], offered, base));
    if head + 1 < tree.len() {
        assert(sits_at(tree, log, at, head + 1));
        assert(at[head] < at[head + 1]);
        assert(log[at[head]].depth <= log[at[head + 1]].depth);
        assert(tree[head].depth <= tree[head + 1].depth);
        assert forall|j: int| 1 <= j < log.len() implies (#[trigger] log[j]).parent->0 < at[head
            + 1] by {
            if j >= base {
                assert(is_offer(log, offered, base, j - base, at[head]));
            }
        }
    }
}

/// When every node of the tree is expanded and none is a goal, the record ends with
/// nothing left to expand.
pub(crate) proof fn lemma_search_exhausted<T: Clone, V: Visitor<T>>(
    tree: Seq<Node<T>>,
    log: Seq<Visit<T, V>>,
    at: Seq<int>,
    start: T,
    is_goal: spec_fn(T, bool) -> bool,
    neighbors: spec_fn(T, Seq<T>) -> bool,
    first: V,
    now: V,
)
    requires
        is_underway(tree, log, at, start, is_goal, neighbors, first, now, tree.len() as int),
    ensures
        is_record_of(log, start, is_goal, neighbors, first, now, None),
        !is_found_at_once(start, is_goal, first),
        log[0].accepted,
{
    reveal(is_underway);
    assert forall|i: int| 0 <= i < log.len() && (#[trigger] log[i]).accepted implies is_goal(log[i].state, false) by {
        let n = choose|n: int| 0 <= n < tree.len() && #[trigger] at[n] == i;
    }
    assert forall|p: int| 0 <= p < log.len() && (#[trigger] log[p]).accepted implies is_expanded(
        log,
        neighbors,
        p,
    ) by {
        let n = choose|n: int| 0 <= n < tree.len() && #[trigger] at[n] == p;
    }
    lemma_root_is_opening(tree, log, at, neighbors);
    assert(sits_at(tree, log, at, 0));
    assert(is_goal(log[at[0]].state, false));
    lemma_not_found_at_once(log, start, is_goal, first);
}

} // verus!
