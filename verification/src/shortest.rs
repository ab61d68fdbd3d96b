use vstd::prelude::*;
use std::collections::HashSet;
use std::hash::Hash;
use vstd::pervasive::cloned;
use vstd::std_specs::hash::obeys_key_model;
use crate::bfs::{
    goal_relation, is_chain, is_expanded, is_kept, is_linked, is_offer, is_offered_at,
    is_reached, is_record_of, is_search, is_step, lemma_route, step_relation, Visit, Visitor,
};

verus! {

broadcast use vstd::std_specs::hash::group_hash_axioms;

/// A set of states is a memory that never forgets: it takes a state in when it does not
/// hold the state yet, and holds it from then on.
impl<T: Eq + Hash + Copy> Visitor<T> for HashSet<T> {
    open spec fn inv(&self) -> bool {
        obeys_key_model::<T>()
    }

    open spec fn outcome(&self, state: &T, depth: usize, accepted: bool, after: &Self) -> bool {
        &&& accepted == !self@.contains(*state)
        &&& after@ == self@.insert(*state)
    }

    fn try_visit(&mut self, state: &T, depth: usize) -> (accepted: bool) {
        self.insert(*state)
    }
}

/// A set of states, used as the memory of a search, is a set of keys in which every state
/// is its own key.
pub proof fn lemma_set_of_states_is_key_set<T: Eq + Hash + Copy>()
    ensures
        is_key_set::<T, HashSet<T>, T>(|state: T| state, |memory: HashSet<T>| memory@),
{
}

/// Whether the memory is a set of keys that never forgets: it takes a state in exactly when
/// the key of the state is not in the set, and the key is in the set afterwards.
pub open spec fn is_key_set<T, V: Visitor<T>, K>(
    key: spec_fn(T) -> K,
    seen: spec_fn(V) -> Set<K>,
) -> bool {
    forall|before: V, state: T, depth: usize, accepted: bool, after: V|
        before.inv() && #[trigger] before.outcome(&state, depth, accepted, &after) ==> {
            &&& accepted == !seen(before).contains(key(state))
            &&& seen(after) == seen(before).insert(key(state))
        }
}

/// Whether one of the states has the key `k`.
pub open spec fn has_key<T, K>(states: Seq<T>, key: spec_fn(T) -> K, k: K) -> bool {
    exists|j: int| 0 <= j < states.len() && key(#[trigger] states[j]) == k
}

/// Whether states with the same key are alike: both are goals or neither is, and the
/// successors of the one have the keys of successors of the other.
pub open spec fn respects_keys<T, K>(
    is_goal: spec_fn(T, bool) -> bool,
    neighbors: spec_fn(T, Seq<T>) -> bool,
    key: spec_fn(T) -> K,
) -> bool {
    &&& forall|s: T, t: T, a: bool, b: bool|
        key(s) == key(t) && #[trigger] is_goal(s, a) && #[trigger] is_goal(t, b) ==> a == b
    &&& forall|s: T, t: T, from_s: Seq<T>, from_t: Seq<T>, k: K|
        key(s) == key(t) && #[trigger] neighbors(s, from_s) && #[trigger] neighbors(t, from_t)
            && #[trigger] has_key(from_s, key, k) ==> has_key(from_t, key, k)
}

/// Whether the states form a walk: each is a successor of the one before it.
pub open spec fn is_walk<T>(neighbors: spec_fn(T, Seq<T>) -> bool, walk: Seq<T>) -> bool {
    &&& walk.len() >= 1
    &&& forall|i: int| 0 <= i < walk.len() - 1 ==> is_step(neighbors, #[trigger] walk[i], walk[i + 1])
}

/// Whether an entry of the record before entry `r` was taken in and has the key `k`.
pub open spec fn was_taken_in<T, V, K>(
    log: Seq<Visit<T, V>>,
    key: spec_fn(T) -> K,
    r: int,
    k: K,
) -> bool {
    exists|i: int| 0 <= i < r && (#[trigger] log[i]).accepted && key(log[i].state) == k
}

/// When a question is put to a memory that is a set of keys, the set holds exactly the
/// keys of the states that were taken in before.
pub proof fn lemma_seen_keys<T, V: Visitor<T>, K>(
    log: Seq<Visit<T, V>>,
    first: V,
    last: V,
    key: spec_fn(T) -> K,
    seen: spec_fn(V) -> Set<K>,
    r: int,
)
    requires
        is_chain(log, first, last),
        is_key_set(key, seen),
        seen(first) == Set::<K>::empty(),
        0 <= r < log.len(),
    ensures
        forall|k: K| seen(log[r].before).contains(k) <==> #[trigger] was_taken_in(log, key, r, k),
    decreases r,
{
    if r > 0 {
        lemma_seen_keys(log, first, last, key, seen, r - 1);
        let asked = log[r - 1];
        assert(is_linked(log, r - 1));
        assert(is_kept(asked));
        assert(asked.before.outcome(&asked.state, asked.depth, asked.accepted, &asked.after));
        assert forall|k: K| seen(log[r].before).contains(k) <==> #[trigger] was_taken_in(
            log,
            key,
            r,
            k,
        ) by {
            if seen(log[r].before).contains(k) {
                if seen(asked.before).contains(k) {
                    assert(was_taken_in(log, key, r - 1, k));
                    let i = choose|i: int|
                        0 <= i < r - 1 && (#[trigger] log[i]).accepted && key(log[i].state) == k;
                    assert(0 <= i < r && log[i].accepted && key(log[i].state) == k);
                } else {
                    assert(log[r - 1].accepted && key(log[r - 1].state) == k);
                }
            }
            if was_taken_in(log, key, r, k) {
                let i = choose|i: int|
                    0 <= i < r && (#[trigger] log[i]).accepted && key(log[i].state) == k;
                if i < r - 1 {
                    assert(was_taken_in(log, key, r - 1, k));
                }
            }
        }
    } else {
        assert forall|k: K| seen(log[r].before).contains(k) <==> #[trigger] was_taken_in(
            log,
            key,
            r,
            k,
        ) by {}
    }
}

/// A search with a memory that is a set of keys follows every walk from the start as far
/// as it has expanded what it took in: for the state `j` steps along the walk it took in
/// a state with the same key, no deeper than `j`.
pub proof fn lemma_walk_is_followed<T, V: Visitor<T>, K>(
    log: Seq<Visit<T, V>>,
    is_goal: spec_fn(T, bool) -> bool,
    neighbors: spec_fn(T, Seq<T>) -> bool,
    first: V,
    last: V,
    key: spec_fn(T) -> K,
    seen: spec_fn(V) -> Set<K>,
    walk: Seq<T>,
    j: int,
    limit: int,
) -> (e: int)
    requires
        is_chain(log, first, last),
        is_search(log, neighbors),
        is_key_set(key, seen),
        seen(first) == Set::<K>::empty(),
        respects_keys(is_goal, neighbors, key),
        is_walk(neighbors, walk),
        key(walk[0]) == key(log[0].state),
        key(walk[0]) == key(log[0].kept),
        0 <= j < walk.len(),
        j <= limit,
        forall|p: int|
            0 <= p < log.len() && (#[trigger] log[p]).accepted && log[p].depth < limit
                ==> is_expanded(log, neighbors, p),
    ensures
        0 <= e < log.len(),
        log[e].accepted,
        key(log[e].state) == key(walk[j]),
        key(log[e].kept) == key(walk[j]),
        log[e].depth <= j,
    decreases j,
{
    if j == 0 {
        let opening = log[0];
        assert(is_kept(opening));
        assert(opening.before.outcome(
            &opening.state,
            opening.depth,
            opening.accepted,
            &opening.after,
        ));
        0
    } else {
        let e = lemma_walk_is_followed(
            log,
            is_goal,
            neighbors,
            first,
            last,
            key,
            seen,
            walk,
            j - 1,
            limit,
        );
        assert(is_expanded(log, neighbors, e));
        let (offered, base) = choose|offered: Seq<T>, base: int| #[trigger]
            is_offered_at(log, neighbors, e, offered, base);
        assert(is_step(neighbors, walk[j - 1], walk[j]));
        let from_walk = choose|from_walk: Seq<T>| #[trigger]
            neighbors(walk[j - 1], from_walk) && from_walk.contains(walk[j]);
        let w = choose|w: int| 0 <= w < from_walk.len() && from_walk[w] == walk[j];
        assert(has_key(from_walk, key, key(walk[j]))) by {
            assert(key(from_walk[w]) == key(walk[j]));
        }
        assert(has_key(offered, key, key(walk[j])));
        let k = choose|k: int| 0 <= k < offered.len() && key(#[trigger] offered[k]) == key(walk[j]);
        let r = base + k;
        assert(is_offer(log, offered, base, k, e));
        assert(is_reached(log, neighbors, r));
        if log[r].accepted {
            r
        } else {
            let asked = log[r];
            assert(is_kept(asked));
            assert(asked.before.outcome(&asked.state, asked.depth, asked.accepted, &asked.after));
            lemma_seen_keys(log, first, last, key, seen, r);
            assert(was_taken_in(log, key, r, key(asked.state)));
            let i = choose|i: int|
                0 <= i < r && (#[trigger] log[i]).accepted && key(log[i].state) == key(
                    asked.state,
                );
            assert(log[i].depth <= log[r].depth);
            if i > 0 {
                assert(is_reached(log, neighbors, i));
            }
            i
        }
    }
}

/// The path that a search found is a shortest one, where its memory is a set of keys and
/// states with the same key are alike: no walk from the start reaches a goal in fewer
/// steps.
pub proof fn lemma_found_path_is_shortest<T: Clone, V: Visitor<T>, K>(
    log: Seq<Visit<T, V>>,
    start: T,
    is_goal: spec_fn(T, bool) -> bool,
    neighbors: spec_fn(T, Seq<T>) -> bool,
    first: V,
    last: V,
    path: Seq<T>,
    key: spec_fn(T) -> K,
    seen: spec_fn(V) -> Set<K>,
    walk: Seq<T>,
)
    requires
        is_record_of(log, start, is_goal, neighbors, first, last, Some(path)),
        is_key_set(key, seen),
        seen(first) == Set::<K>::empty(),
        respects_keys(is_goal, neighbors, key),
        is_walk(neighbors, walk),
        forall|c: T| cloned(start, c) ==> key(c) == key(walk[0]),
        is_goal(walk.last(), true),
    ensures
        path.len() <= walk.len(),
{
    let end = log.len() - 1;
    lemma_route(log, neighbors, end);
    if walk.len() < path.len() {
        assert(is_reached(log, neighbors, end));
        let parent = log[end].parent->0;
        let limit = log[parent].depth as int;
        assert forall|p: int|
            0 <= p < log.len() && (#[trigger] log[p]).accepted && log[p].depth < limit implies is_expanded(
            log,
            neighbors,
            p,
        ) by {
            if p >= parent {
                assert(log[parent].depth <= log[p].depth);
            }
        }
        assert(cloned(start, start));
    let e = lemma_walk_is_followed(
            log,
            is_goal,
            neighbors,
            first,
            last,
            key,
            seen,
            walk,
            walk.len() - 1,
            limit,
        );
        assert(e < end);
        assert(is_goal(log[e].state, false));
    }
}

/// A search that ended with nothing left to expand has missed no goal, where its memory
/// is a set of keys and states with the same key are alike: no walk from the start reaches
/// a goal.
pub proof fn lemma_exhausted_means_unreachable<T: Clone, V: Visitor<T>, K>(
    log: Seq<Visit<T, V>>,
    start: T,
    is_goal: spec_fn(T, bool) -> bool,
    neighbors: spec_fn(T, Seq<T>) -> bool,
    first: V,
    last: V,
    key: spec_fn(T) -> K,
    seen: spec_fn(V) -> Set<K>,
    walk: Seq<T>,
)
    requires
        is_record_of(log, start, is_goal, neighbors, first, last, None),
        is_key_set(key, seen),
        seen(first) == Set::<K>::empty(),
        respects_keys(is_goal, neighbors, key),
        is_walk(neighbors, walk),
        forall|c: T| cloned(start, c) ==> key(c) == key(walk[0]),
    ensures
        !is_goal(walk.last(), true),
{
    assert(cloned(start, start));
    let e = lemma_walk_is_followed(
        log,
        is_goal,
        neighbors,
        first,
        last,
        key,
        seen,
        walk,
        walk.len() - 1,
        walk.len() as int,
    );
    assert(is_goal(log[e].state, false));
}

/// With a set of states as its memory, and with functions for the test of the goal and
/// for the successors, states are alike exactly when they are the same state.
proof fn lemma_functions_respect_states<T, G: Fn(&T) -> bool, N: Fn(&T) -> Vec<T>>(
    is_goal: G,
    neighbors: N,
)
    requires
        forall|s: T, a: bool, b: bool|
            #[trigger] call_ensures(is_goal, (&s,), a) && #[trigger] call_ensures(
                is_goal,
                (&s,),
                b,
            ) ==> a == b,
        forall|s: T, x: Vec<T>, y: Vec<T>|
            #[trigger] call_ensures(neighbors, (&s,), x) && #[trigger] call_ensures(
                neighbors,
                (&s,),
                y,
            ) ==> x@ == y@,
    ensures
        respects_keys(goal_relation(is_goal), step_relation(neighbors), |state: T| state),
{
    let goal = goal_relation(is_goal);
    let step = step_relation(neighbors);
    let key = |state: T| state;
    assert forall|s: T, t: T, a: bool, b: bool|
        key(s) == key(t) && #[trigger] goal(s, a) && #[trigger] goal(t, b) implies a == b by {
        assert(call_ensures(is_goal, (&s,), a));
        assert(call_ensures(is_goal, (&t,), b));
    }
    assert forall|s: T, t: T, from_s: Seq<T>, from_t: Seq<T>, k: T|
        key(s) == key(t) && #[trigger] step(s, from_s) && #[trigger] step(t, from_t)
            && #[trigger] has_key(from_s, key, k) implies has_key(from_t, key, k) by {
        let list_s = choose|list: Vec<T>| #[trigger]
            call_ensures(neighbors, (&s,), list) && list@ == from_s;
        let list_t = choose|list: Vec<T>| #[trigger]
            call_ensures(neighbors, (&t,), list) && list@ == from_t;
        assert(from_s == from_t);
    }
}

/// A search that has a set of states as its memory, empty at first, and functions for the
/// test of the goal and for the successors, finds a shortest path: no walk from the start
/// reaches a goal in fewer steps than the path that was found.
pub proof fn lemma_set_memory_finds_shortest<T, G, N>(
    log: Seq<Visit<T, HashSet<T>>>,
    start: T,
    is_goal: G,
    neighbors: N,
    first: HashSet<T>,
    last: HashSet<T>,
    path: Seq<T>,
    walk: Seq<T>,
) where T: Eq + Hash + Copy, G: Fn(&T) -> bool, N: Fn(&T) -> Vec<T>
    requires
        is_record_of(
            log,
            start,
            goal_relation(is_goal),
            step_relation(neighbors),
            first,
            last,
            Some(path),
        ),
        first@ == Set::<T>::empty(),
        forall|s: T, a: bool, b: bool|
            #[trigger] call_ensures(is_goal, (&s,), a) && #[trigger] call_ensures(
                is_goal,
                (&s,),
                b,
            ) ==> a == b,
        forall|s: T, x: Vec<T>, y: Vec<T>|
            #[trigger] call_ensures(neighbors, (&s,), x) && #[trigger] call_ensures(
                neighbors,
                (&s,),
                y,
            ) ==> x@ == y@,
        forall|c: T| cloned(start, c) ==> c == start,
        is_walk(step_relation(neighbors), walk),
        walk[0] == start,
        call_ensures(is_goal, (&walk.last(),), true),
    ensures
        path.len() <= walk.len(),
{
    lemma_functions_respect_states(is_goal, neighbors);
    lemma_set_of_states_is_key_set::<T>();
    lemma_found_path_is_shortest(
        log,
        start,
        goal_relation(is_goal),
        step_relation(neighbors),
        first,
        last,
        path,
        |state: T| state,
        |memory: HashSet<T>| memory@,
        walk,
    );
}

/// A search that has a set of states as its memory, empty at first, and functions for the
/// test of the goal and for the successors, finds a path wherever there is one: where it
/// found none, no walk from the start reaches a goal.
pub proof fn lemma_set_memory_misses_no_goal<T, G, N>(
    log: Seq<Visit<T, HashSet<T>>>,
    start: T,
    is_goal: G,
    neighbors: N,
    first: HashSet<T>,
    last: HashSet<T>,
    walk: Seq<T>,
) where T: Eq + Hash + Copy, G: Fn(&T) -> bool, N: Fn(&T) -> Vec<T>
    requires
        is_record_of(log, start, goal_relation(is_goal), step_relation(neighbors), first, last, None),
        first@ == Set::<T>::empty(),
        forall|s: T, a: bool, b: bool|
            #[trigger] call_ensures(is_goal, (&s,), a) && #[trigger] call_ensures(
                is_goal,
                (&s,),
                b,
            ) ==> a == b,
        forall|s: T, x: Vec<T>, y: Vec<T>|
            #[trigger] call_ensures(neighbors, (&s,), x) && #[trigger] call_ensures(
                neighbors,
                (&s,),
                y,
            ) ==> x@ == y@,
        forall|c: T| cloned(start, c) ==> c == start,
        is_walk(step_relation(neighbors), walk),
        walk[0] == start,
    ensures
        !call_ensures(is_goal, (&walk.last(),), true),
{
    lemma_functions_respect_states(is_goal, neighbors);
    lemma_set_of_states_is_key_set::<T>();
    lemma_exhausted_means_unreachable(
        log,
        start,
        goal_relation(is_goal),
        step_relation(neighbors),
        first,
        last,
        |state: T| state,
        |memory: HashSet<T>| memory@,
        walk,
    );
}

} // verus!
