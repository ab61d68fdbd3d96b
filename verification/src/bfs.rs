use vstd::prelude::*;
use vstd::pervasive::cloned;
use crate::search_tree::{SearchTree, TracePath};
use growth::{
    is_expanding,
    is_underway,
    lemma_expansion_begins,
    lemma_expansion_ends,
    lemma_goal_taken_in,
    lemma_record_of_finding,
    lemma_search_begins,
    lemma_search_exhausted,
    lemma_successor_taken_in,
    lemma_successor_turned_down,
    mirrors,
    sits_at,
};

mod growth;
pub mod unique;

verus! {

/// The memory of a search: it is asked about every state that the search comes upon, and
/// says whether the search shall take the state in. It may change with every answer.
pub trait Visitor<T>: Sized {
    /// What has to hold of the memory for it to be asked.
    spec fn inv(&self) -> bool;

    /// Whether the memory may answer `accepted` when asked about `state` at `depth`, and
    /// be `after` once it has answered.
    spec fn outcome(&self, state: &T, depth: usize, accepted: bool, after: &Self) -> bool;

    /// Asks whether `state`, found at `depth`, shall be taken in.
    fn try_visit(&mut self, state: &T, depth: usize) -> (accepted: bool)
        requires
            old(self).inv(),
        ensures
            final(self).inv(),
            old(self).outcome(state, depth, accepted, final(self)),
    ;
}

/// Any function of a state and a depth can serve as the memory of a search.
impl<T, F: FnMut(&T, usize) -> bool> Visitor<T> for F {
    open spec fn inv(&self) -> bool {
        forall|state: &T, depth: usize| call_requires(*self, (state, depth))
    }

    open spec fn outcome(&self, state: &T, depth: usize, accepted: bool, after: &Self) -> bool {
        call_ensures(*self, (state, depth), accepted) && *after == *self
    }

    fn try_visit(&mut self, state: &T, depth: usize) -> (accepted: bool) {
        self(state, depth)
    }
}

/// What it means for a function to serve as the memory of a search: its answers are those
/// that the function may give, and it is the same function afterwards.
pub proof fn lemma_function_as_memory<T, F: FnMut(&T, usize) -> bool>(
    try_visit: F,
    state: T,
    depth: usize,
    accepted: bool,
    after: F,
)
    ensures
        try_visit.outcome(&state, depth, accepted, &after) == (call_ensures(
            try_visit,
            (&state, depth),
            accepted,
        ) && after == try_visit),
        try_visit.inv() == (forall|s: &T, d: usize| call_requires(try_visit, (s, d))),
{
}

/// One question put to the memory of a search, and its answer: the memory before and
/// after, the state asked about, the state as the search keeps it where it is taken in
/// (a clone of the start for the opening question, the state itself for every other),
/// its depth, and the place in the record of the state from which it was reached.
pub ghost struct Visit<T, V> {
    pub before: V,
    pub state: T,
    pub kept: T,
    pub depth: usize,
    pub accepted: bool,
    pub after: V,
    pub parent: Option<int>,
}

/// What a test for the goal may answer: the relation between a state and an answer.
pub open spec fn goal_relation<T, G: Fn(&T) -> bool>(is_goal: G) -> spec_fn(T, bool) -> bool {
    |state: T, answer: bool| call_ensures(is_goal, (&state,), answer)
}

/// What a function that gives the successors may offer: the relation between a state and
/// the states offered for it, in their order.
pub open spec fn step_relation<T, N: Fn(&T) -> Vec<T>>(neighbors: N) -> spec_fn(T, Seq<T>) -> bool {
    |state: T, offered: Seq<T>|
        exists|list: Vec<T>| #[trigger] call_ensures(neighbors, (&state,), list) && list@ == offered
}

/// Whether `neighbors` may offer `next` as a successor of `state`.
pub open spec fn is_step<T>(neighbors: spec_fn(T, Seq<T>) -> bool, state: T, next: T) -> bool {
    exists|offered: Seq<T>| neighbors(state, offered) && offered.contains(next)
}

/// Whether the answer recorded in `visit` is one that the memory may give.
pub open spec fn is_kept<T, V: Visitor<T>>(visit: Visit<T, V>) -> bool {
    visit.before.inv() && visit.before.outcome(
        &visit.state,
        visit.depth,
        visit.accepted,
        &visit.after,
    )
}

/// Whether the memory was asked question `i + 1` of the record in the state in which
/// question `i` left it.
pub open spec fn is_linked<T, V>(log: Seq<Visit<T, V>>, i: int) -> bool {
    log[i].after == log[i + 1].before
}

/// Whether the record holds the questions put to one memory, one after the other, from
/// its state `first` to its state `last`.
pub open spec fn is_chain<T, V: Visitor<T>>(log: Seq<Visit<T, V>>, first: V, last: V) -> bool {
    &&& log.len() >= 1
    &&& log[0].before == first
    &&& log.last().after == last
    &&& forall|i: int| 0 <= i < log.len() ==> is_kept(#[trigger] log[i])
    &&& forall|i: int| 0 <= i < log.len() - 1 ==> #[trigger] is_linked(log, i)
}

/// Whether entry `i` of the record was reached in one step from an earlier entry that
/// was taken in, and lies one level deeper than it.
pub open spec fn is_reached<T, V>(
    log: Seq<Visit<T, V>>,
    neighbors: spec_fn(T, Seq<T>) -> bool,
    i: int,
) -> bool {
    match log[i].parent {
        Some(p) => 0 <= p < i && log[p].accepted && log[i].depth == log[p].depth + 1 && is_step(
            neighbors,
            log[p].kept,
            log[i].state,
        ) && log[i].kept == log[i].state,
        None => false,
    }
}

/// Whether the record is that of a search that went level by level and took the states
/// in their turn: it begins with the start at depth 0, every later entry was reached from
/// an entry taken in before it, and neither the depths nor the places of the parents
/// ever fall.
pub open spec fn is_search<T, V>(log: Seq<Visit<T, V>>, neighbors: spec_fn(T, Seq<T>) -> bool) -> bool {
    &&& log.len() >= 1
    &&& log[0].parent is None
    &&& log[0].depth == 0
    &&& forall|i: int| 1 <= i < log.len() ==> #[trigger] is_reached(log, neighbors, i)
    &&& forall|i: int, j: int|
        0 <= i <= j < log.len() ==> (#[trigger] log[i]).depth <= (#[trigger] log[j]).depth
    &&& forall|i: int, j: int|
        1 <= i <= j < log.len() ==> (#[trigger] log[i]).parent->0 <= (#[trigger] log[j]).parent->0
}

/// Whether entry `base + k` of the record holds successor `k` of those offered for entry
/// `p`.
pub open spec fn is_offer<T, V>(
    log: Seq<Visit<T, V>>,
    offered: Seq<T>,
    base: int,
    k: int,
    p: int,
) -> bool {
    log[base + k].state == offered[k] && log[base + k].parent == Some(p)
}

/// Whether the entries of the record from `base` on hold, one after the other, the
/// successors `offered` for entry `p`, and no other entry was reached from entry `p`.
pub open spec fn is_offered_at<T, V>(
    log: Seq<Visit<T, V>>,
    neighbors: spec_fn(T, Seq<T>) -> bool,
    p: int,
    offered: Seq<T>,
    base: int,
) -> bool {
    &&& neighbors(log[p].kept, offered)
    &&& 0 <= base
    &&& base + offered.len() <= log.len()
    &&& forall|k: int| 0 <= k < offered.len() ==> #[trigger] is_offer(log, offered, base, k, p)
    &&& forall|i: int|
        0 <= i < log.len() && (#[trigger] log[i]).parent == Some(p) ==> base <= i < base
            + offered.len()
}

/// Whether the record ends in the middle of the expansion of entry `p`: its entries from
/// `base` to the last hold, one after the other, the first of the successors `offered`
/// for entry `p`, and no other entry was reached from entry `p`.
pub open spec fn is_cut_short<T, V>(
    log: Seq<Visit<T, V>>,
    neighbors: spec_fn(T, Seq<T>) -> bool,
    p: int,
    offered: Seq<T>,
    base: int,
) -> bool {
    &&& neighbors(log[p].kept, offered)
    &&& 0 <= base < log.len()
    &&& log.len() - base <= offered.len()
    &&& forall|k: int| 0 <= k < log.len() - base ==> #[trigger] is_offer(log, offered, base, k, p)
    &&& forall|i: int| 0 <= i < log.len() && (#[trigger] log[i]).parent == Some(p) ==> base <= i
}

/// Whether the record shows entry `p` fully expanded: every successor that `neighbors`
/// offered for it was put to the memory, in the order in which it was offered, and
/// these are all the entries that were reached from it.
pub open spec fn is_expanded<T, V>(
    log: Seq<Visit<T, V>>,
    neighbors: spec_fn(T, Seq<T>) -> bool,
    p: int,
) -> bool {
    exists|offered: Seq<T>, base: int| #[trigger] is_offered_at(log, neighbors, p, offered, base)
}

/// The states on the way from the start to entry `i` of the record, as the search keeps
/// them, the start first.
pub open spec fn route<T, V>(log: Seq<Visit<T, V>>, i: int) -> Seq<T>
    decreases i,
{
    if 0 <= i < log.len() {
        match log[i].parent {
            Some(p) => if 0 <= p < i {
                route(log, p).push(log[i].kept)
            } else {
                seq![log[i].kept]
            },
            None => seq![log[i].kept],
        }
    } else {
        Seq::empty()
    }
}

/// Whether the record ends with the finding of `path`: its last entry was taken in and
/// is a goal, `path` leads to it, no entry taken in before it is a goal, every entry
/// taken in before the parent of the last one is fully expanded, and the expansion of
/// that parent ends with the last entry.
pub open spec fn is_found<T, V>(
    log: Seq<Visit<T, V>>,
    is_goal: spec_fn(T, bool) -> bool,
    neighbors: spec_fn(T, Seq<T>) -> bool,
    path: Seq<T>,
) -> bool {
    let last = log.len() - 1;
    &&& log[last].accepted
    &&& is_goal(log[last].state, true)
    &&& path == route(log, last)
    &&& forall|i: int|
        0 <= i < last && (#[trigger] log[i]).accepted ==> is_goal(log[i].state, false)
    &&& forall|p: int|
        0 <= p < last && (#[trigger] log[p]).accepted && log[last].parent is Some && p
            < log[last].parent->0 ==> is_expanded(log, neighbors, p)
    &&& last > 0 ==> exists|offered: Seq<T>, base: int| #[trigger]
        is_cut_short(log, neighbors, log[last].parent->0, offered, base)
}

/// Whether the record ends with nothing left to expand: no entry taken in is a goal, and
/// every entry taken in is fully expanded.
pub open spec fn is_exhausted<T, V>(
    log: Seq<Visit<T, V>>,
    is_goal: spec_fn(T, bool) -> bool,
    neighbors: spec_fn(T, Seq<T>) -> bool,
) -> bool {
    &&& forall|i: int|
        0 <= i < log.len() && (#[trigger] log[i]).accepted ==> is_goal(log[i].state, false)
    &&& forall|p: int|
        0 <= p < log.len() && (#[trigger] log[p]).accepted ==> is_expanded(log, neighbors, p)
}

/// Whether `path` leads from a clone of `start` to a goal, each state one step from the
/// state before it. Where the path is the clone alone, it is the start itself that was
/// found to be a goal.
pub open spec fn is_route<T: Clone>(
    start: T,
    is_goal: spec_fn(T, bool) -> bool,
    neighbors: spec_fn(T, Seq<T>) -> bool,
    path: Seq<T>,
) -> bool {
    &&& path.len() >= 1
    &&& cloned(start, path[0])
    &&& if path.len() == 1 {
        is_goal(start, true)
    } else {
        is_goal(path.last(), true)
    }
    &&& forall|i: int| 0 <= i < path.len() - 1 ==> is_step(neighbors, #[trigger] path[i], path[i + 1])
}

/// The way to an entry of a search's record has one state for each level down to the
/// entry, begins with the start, ends with the entry, and goes step by step.
pub proof fn lemma_route<T, V>(log: Seq<Visit<T, V>>, neighbors: spec_fn(T, Seq<T>) -> bool, i: int)
    requires
        is_search(log, neighbors),
        0 <= i < log.len(),
    ensures
        route(log, i).len() == log[i].depth + 1,
        route(log, i)[0] == log[0].kept,
        route(log, i).last() == log[i].kept,
        forall|k: int|
            0 <= k < route(log, i).len() - 1 ==> is_step(
                neighbors,
                #[trigger] route(log, i)[k],
                route(log, i)[k + 1],
            ),
    decreases i,
{
    if i > 0 {
        assert(is_reached(log, neighbors, i));
        let p = log[i].parent->0;
        lemma_route(log, neighbors, p);
        let way = route(log, i);
        let before = route(log, p);
        assert(way == before.push(log[i].kept));
        assert forall|k: int| 0 <= k < way.len() - 1 implies is_step(
            neighbors,
            #[trigger] way[k],
            way[k + 1],
        ) by {
            if k < before.len() - 1 {
                assert(way[k] == before[k]);
                assert(way[k + 1] == before[k + 1]);
            } else {
                assert(way[k] == log[p].kept);
                assert(way[k + 1] == log[i].state);
            }
        }
    }
}

/// A search delivers its questions level by level: the first at depth 0, and each of the
/// others at the depth of the one before it or one level deeper.
pub proof fn lemma_search_goes_level_by_level<T, V>(
    log: Seq<Visit<T, V>>,
    neighbors: spec_fn(T, Seq<T>) -> bool,
    i: int,
)
    requires
        is_search(log, neighbors),
        0 <= i < log.len(),
    ensures
        i == 0 ==> log[i].depth == 0,
        i > 0 ==> log[i].depth == log[i - 1].depth || log[i].depth == log[i - 1].depth + 1,
{
    if i > 0 {
        assert(is_reached(log, neighbors, i));
        let p = log[i].parent->0;
        assert(log[p].depth <= log[i - 1].depth);
        assert(log[i - 1].depth <= log[i].depth);
    }
}

/// A search whose memory turned the start down put no other question: its record is the
/// opening question alone, and it found no path.
pub proof fn lemma_refused_start_ends_search<T: Clone, V: Visitor<T>>(
    log: Seq<Visit<T, V>>,
    start: T,
    is_goal: spec_fn(T, bool) -> bool,
    neighbors: spec_fn(T, Seq<T>) -> bool,
    first: V,
    last: V,
    result: Option<Seq<T>>,
)
    requires
        is_record_of(log, start, is_goal, neighbors, first, last, result),
        !log[0].accepted,
    ensures
        log.len() == 1,
        result is None,
{
    if log.len() > 1 {
        assert(is_reached(log, neighbors, 1));
    }
}

/// The result of a search as a sequence, where a path was found.
pub open spec fn as_seq<T>(result: Option<Vec<T>>) -> Option<Seq<T>> {
    match result {
        Some(path) => Some(path@),
        None => None,
    }
}

/// Whether the start is sure to be found a goal.
pub open spec fn is_goal_at_once<T>(start: T, is_goal: spec_fn(T, bool) -> bool) -> bool {
    forall|answer: bool| #[trigger] is_goal(start, answer) ==> answer
}

/// Whether the search is sure to end at once with a path: the start is a goal, and the
/// memory, as it is, takes the start in.
pub open spec fn is_found_at_once<T, V: Visitor<T>>(
    start: T,
    is_goal: spec_fn(T, bool) -> bool,
    memory: V,
) -> bool {
    &&& is_goal_at_once(start, is_goal)
    &&& forall|answer: bool, after: V|
        #[trigger] memory.outcome(&start, 0, answer, &after) ==> answer
}

/// Whether the search is sure to end at once without a path: the memory, as it is, turns
/// the start down.
pub open spec fn is_turned_down_at_once<T, V: Visitor<T>>(start: T, memory: V) -> bool {
    forall|answer: bool, after: V| #[trigger] memory.outcome(&start, 0, answer, &after) ==> !answer
}

/// Whether the record `log` tells what a search from `start` did and why it gave `result`.
pub open spec fn is_record_of<T: Clone, V: Visitor<T>>(
    log: Seq<Visit<T, V>>,
    start: T,
    is_goal: spec_fn(T, bool) -> bool,
    neighbors: spec_fn(T, Seq<T>) -> bool,
    first: V,
    last: V,
    result: Option<Seq<T>>,
) -> bool {
    &&& is_chain(log, first, last)
    &&& is_search(log, neighbors)
    &&& log[0].state == start
    &&& cloned(start, log[0].kept)
    &&& match result {
        Some(path) => is_found(log, is_goal, neighbors, path),
        None => is_exhausted(log, is_goal, neighbors),
    }
}

/// A record stays a record when the test for the goal and the successors are described
/// more loosely: by relations that hold wherever the first ones hold.
pub proof fn lemma_record_weakens<T: Clone, V: Visitor<T>>(
    log: Seq<Visit<T, V>>,
    start: T,
    is_goal: spec_fn(T, bool) -> bool,
    neighbors: spec_fn(T, Seq<T>) -> bool,
    looser_goal: spec_fn(T, bool) -> bool,
    looser_neighbors: spec_fn(T, Seq<T>) -> bool,
    first: V,
    last: V,
    result: Option<Seq<T>>,
)
    requires
        is_record_of(log, start, is_goal, neighbors, first, last, result),
        forall|state: T, answer: bool| #[trigger]
            is_goal(state, answer) ==> looser_goal(state, answer),
        forall|state: T, offered: Seq<T>| #[trigger]
            neighbors(state, offered) ==> looser_neighbors(state, offered),
    ensures
        is_record_of(log, start, looser_goal, looser_neighbors, first, last, result),
        forall|path: Seq<T>|
            is_route(start, is_goal, neighbors, path) ==> is_route(
                start,
                looser_goal,
                looser_neighbors,
                path,
            ),
{
    assert forall|a: T, b: T| is_step(neighbors, a, b) implies is_step(looser_neighbors, a, b) by {
        let offered = choose|offered: Seq<T>| #[trigger]
            neighbors(a, offered) && offered.contains(b);
        assert(looser_neighbors(a, offered));
    }
    assert forall|i: int| 1 <= i < log.len() implies #[trigger] is_reached(
        log,
        looser_neighbors,
        i,
    ) by {
        assert(is_reached(log, neighbors, i));
    }
    assert forall|p: int| 0 <= p < log.len() && is_expanded(log, neighbors, p) implies is_expanded(
        log,
        looser_neighbors,
        p,
    ) by {
        let (offered, base) = choose|offered: Seq<T>, base: int| #[trigger]
            is_offered_at(log, neighbors, p, offered, base);
        assert(is_offered_at(log, looser_neighbors, p, offered, base));
    }
    if result is Some && log.len() > 1 {
        let p = log[log.len() - 1].parent->0;
        let (offered, base) = choose|offered: Seq<T>, base: int| #[trigger]
            is_cut_short(log, neighbors, p, offered, base);
        assert(is_cut_short(log, looser_neighbors, p, offered, base));
    }
}

/// Whether the record holds answers of the function `try_visit`, which is the same
/// function before and after every question.
pub open spec fn is_answered_by<T, F: FnMut(&T, usize) -> bool>(
    log: Seq<Visit<T, F>>,
    try_visit: F,
) -> bool {
    forall|i: int|
        0 <= i < log.len() ==> {
            &&& (#[trigger] log[i]).before == try_visit
            &&& log[i].after == try_visit
            &&& call_ensures(try_visit, (&log[i].state, log[i].depth), log[i].accepted)
        }
}

/// Whether the function is sure to take the start in at depth 0.
pub open spec fn is_taken_at_once<T, F: FnMut(&T, usize) -> bool>(start: T, try_visit: F) -> bool {
    forall|answer: bool| #[trigger] call_ensures(try_visit, (&start, 0usize), answer) ==> answer
}

/// Whether the function is sure to turn the start down at depth 0.
pub open spec fn is_refused_at_once<T, F: FnMut(&T, usize) -> bool>(start: T, try_visit: F) -> bool {
    forall|answer: bool| #[trigger] call_ensures(try_visit, (&start, 0usize), answer) ==> !answer
}

/// A function that serves as the memory of a search is the same function after every
/// question, and the record of the search holds its answers.
pub proof fn lemma_function_stays<T, F: FnMut(&T, usize) -> bool>(
    log: Seq<Visit<T, F>>,
    first: F,
    last: F,
)
    requires
        is_chain(log, first, last),
    ensures
        last == first,
        is_answered_by(log, first),
    decreases log.len(),
{
    let n = log.len() - 1;
    assert(is_kept(log[n]));
    if n > 0 {
        let earlier = log.drop_last();
        assert(is_linked(log, n - 1));
        assert forall|i: int| 0 <= i < earlier.len() implies is_kept(#[trigger] earlier[i]) by {
            assert(earlier[i] == log[i]);
        }
        assert forall|i: int| 0 <= i < earlier.len() - 1 implies #[trigger] is_linked(
            earlier,
            i,
        ) by {
            assert(is_linked(log, i));
            assert(earlier[i] == log[i]);
            assert(earlier[i + 1] == log[i + 1]);
        }
        assert(earlier[0] == log[0]);
        assert(earlier.last() == log[n - 1]);
        lemma_function_stays(earlier, first, log[n - 1].after);
        assert forall|i: int| 0 <= i < log.len() implies {
            &&& (#[trigger] log[i]).before == first
            &&& log[i].after == first
            &&& call_ensures(first, (&log[i].state, log[i].depth), log[i].accepted)
        } by {
            if i < n {
                assert(earlier[i] == log[i]);
            }
        }
    }
}

/// A search that goes level by level: it finds out whether a state is a goal, which states
/// follow on a state, and asks its memory whether a state shall be taken in.
#[verifier::reject_recursive_types(T)]
pub struct PathFinder<T, FGoal, FNext, FVisit> where
    T: Clone,
    FGoal: Fn(&T) -> bool,
    FNext: Fn(&T) -> Vec<T>,
    FVisit: Visitor<T>,
 {
    pub is_goal: FGoal,
    pub neighbors: FNext,
    pub try_visit: FVisit,
    pub marker: core::marker::PhantomData<T>,
}

impl<T, FGoal, FNext, FVisit> PathFinder<T, FGoal, FNext, FVisit> where
    T: Clone,
    FGoal: Fn(&T) -> bool,
    FNext: Fn(&T) -> Vec<T>,
    FVisit: Visitor<T>,
 {
    /// Whether the search can run: its functions take every state, and its memory can be
    /// asked.
    pub open spec fn is_ready(&self) -> bool {
        &&& forall|state: &T| call_requires(self.is_goal, (state,))
        &&& forall|state: &T| call_requires(self.neighbors, (state,))
        &&& self.try_visit.inv()
    }

    /// Creates a search from a test for the goal, a function that gives the successors
    /// of a state, and a memory.
    pub fn new(is_goal: FGoal, neighbors: FNext, try_visit: FVisit) -> (r: Self)
        ensures
            r.is_goal == is_goal,
            r.neighbors == neighbors,
            r.try_visit == try_visit,
    {
        Self { is_goal, neighbors, try_visit, marker: core::marker::PhantomData }
    }

    /// Searches level by level for a path from `start_state` to a goal.
    ///
    /// The start itself is put to the memory at depth 0, and where the memory turns it
    /// down the search ends at once. Every successor of a state that was taken in is put
    /// to the memory one level deeper, in the order in which the states were taken in and
    /// the successors were offered. A state that the memory takes in is tested for the
    /// goal at once, and the first goal ends the search. Returns the path to it, which
    /// begins with a clone of the start, or `None` when nothing is left to expand.
    pub fn find(&mut self, start_state: &T) -> (r: Option<Vec<T>>)
        requires
            old(self).is_ready(),
        ensures
            final(self).is_ready(),
            final(self).is_goal == old(self).is_goal,
            final(self).neighbors == old(self).neighbors,
            r matches Some(path) ==> is_route(
                *start_state,
                goal_relation(old(self).is_goal),
                step_relation(old(self).neighbors),
                path@,
            ),
            (forall|path: Seq<T>|
                !is_route(
                    *start_state,
                    goal_relation(old(self).is_goal),
                    step_relation(old(self).neighbors),
                    path,
                )) ==> r is None,
            is_found_at_once(
                *start_state,
                goal_relation(old(self).is_goal),
                old(self).try_visit,
            ) ==> (r matches Some(path) && path@.len() == 1),
            is_turned_down_at_once(*start_state, old(self).try_visit) ==> r is None,
            exists|log: Seq<Visit<T, FVisit>>| #[trigger]
                is_record_of(
                    log,
                    *start_state,
                    goal_relation(old(self).is_goal),
                    step_relation(old(self).neighbors),
                    old(self).try_visit,
                    final(self).try_visit,
                    as_seq(r),
                ),
    {
        let ghost first = self.try_visit;
        let ghost is_goal = goal_relation(self.is_goal);
        let ghost neighbors = step_relation(self.neighbors);
        let accepted = self.try_visit.try_visit(start_state, 0);
        if !accepted {
            let ghost refused = Visit {
                before: first,
                state: *start_state,
                kept: *start_state,
                depth: 0,
                accepted,
                after: self.try_visit,
                parent: None,
            };
            let ghost log: Seq<Visit<T, FVisit>> = seq![refused];
            proof {
                assert(log[0] == refused);
                assert(is_record_of(
                    log,
                    *start_state,
                    is_goal,
                    neighbors,
                    first,
                    self.try_visit,
                    None,
                ));
            }
            return None;
        }
        let root = start_state.clone();
        let found = (self.is_goal)(start_state);
        let ghost opening = Visit {
            before: first,
            state: *start_state,
            kept: root,
            depth: 0,
            accepted,
            after: self.try_visit,
            parent: None,
        };
        let ghost mut log: Seq<Visit<T, FVisit>> = seq![opening];
        let mut tree = SearchTree::with_root(root);
        let ghost mut at: Seq<int> = seq![0int];
        if found {
            let ghost nodes = tree@;
            let path = tree.trace_path();
            proof {
                assert(at[0] == 0);
                assert(log[0] == opening);
                assert(sits_at(nodes, log, at, 0));
                assert(mirrors(nodes, log, at));
                lemma_record_of_finding(
                    nodes,
                    log,
                    at,
                    *start_state,
                    is_goal,
                    neighbors,
                    0,
                    Seq::empty(),
                    0,
                );
                assert(is_record_of(
                    log,
                    *start_state,
                    is_goal,
                    neighbors,
                    first,
                    self.try_visit,
                    Some(path@),
                ));
            }
            return Some(path);
        }
        proof {
            lemma_search_begins(*start_state, is_goal, neighbors, opening);
        }
        let mut head: usize = 0;
        while head < tree.len()
            invariant
                head <= tree@.len(),
                self.is_ready(),
                self.is_goal == old(self).is_goal,
                self.neighbors == old(self).neighbors,
                is_goal == goal_relation(self.is_goal),
                neighbors == step_relation(self.neighbors),
                first == old(self).try_visit,
                is_underway(
                    tree@,
                    log,
                    at,
                    *start_state,
                    is_goal,
                    neighbors,
                    first,
                    self.try_visit,
                    head as int,
                ),
            decreases usize::MAX - head,
        {
            let next_depth = tree.depth(head) + 1;
            let offered = (self.neighbors)(tree.state(head));
            let ghost offered_vec = offered@;
            assert(neighbors(tree@[head as int].state, offered_vec));
            proof {
                lemma_expansion_begins(
                    tree@,
                    log,
                    at,
                    *start_state,
                    is_goal,
                    neighbors,
                    first,
                    self.try_visit,
                    head as int,
                    offered_vec,
                );
            }
            for next_state in it: offered.into_iter()
                invariant
                    it.seq() == offered_vec,
                    head < tree@.len(),
                    next_depth == tree@[head as int].depth + 1,
                    self.is_ready(),
                    self.is_goal == old(self).is_goal,
                    self.neighbors == old(self).neighbors,
                    is_goal == goal_relation(self.is_goal),
                    neighbors == step_relation(self.neighbors),
                    first == old(self).try_visit,
                    is_expanding(
                        tree@,
                        log,
                        at,
                        *start_state,
                        is_goal,
                        neighbors,
                        first,
                        self.try_visit,
                        head as int,
                        offered_vec,
                        it.index(),
                    ),
            {
                let ghost before = self.try_visit;
                let ghost done = it.index();
                let ghost old_log = log;
                let ghost old_at = at;
                let ghost old_tree = tree@;
                let accepted = self.try_visit.try_visit(&next_state, next_depth);
                let ghost visit = Visit {
                    before,
                    state: next_state,
                    kept: next_state,
                    depth: next_depth,
                    accepted,
                    after: self.try_visit,
                    parent: Some(old_at[head as int]),
                };
                proof {
                    log = old_log.push(visit);
                    assert(offered_vec[done] == next_state);
                }
                if accepted {
                    let found = (self.is_goal)(&next_state);
                    tree = tree.add_child(head, next_state);
                    proof {
                        at = old_at.push(old_log.len() as int);
                        assert(tree@[head as int] == old_tree[head as int]);
                    }
                    if found {
                        let ghost nodes = tree@;
                        let path = tree.trace_path();
                        proof {
                            lemma_goal_taken_in(
                                old_tree,
                                old_log,
                                old_at,
                                *start_state,
                                is_goal,
                                neighbors,
                                first,
                                head,
                                offered_vec,
                                done,
                                visit,
                                path@,
                            );
                        }
                        return Some(path);
                    }
                    proof {
                        lemma_successor_taken_in(
                            old_tree,
                            old_log,
                            old_at,
                            *start_state,
                            is_goal,
                            neighbors,
                            first,
                            head,
                            offered_vec,
                            done,
                            visit,
                        );
                    }
                } else {
                    proof {
                        lemma_successor_turned_down(
                            old_tree,
                            old_log,
                            old_at,
                            *start_state,
                            is_goal,
                            neighbors,
                            first,
                            head as int,
                            offered_vec,
                            done,
                            visit,
                        );
                    }
                }
            }
            proof {
                lemma_expansion_ends(
                    tree@,
                    log,
                    at,
                    *start_state,
                    is_goal,
                    neighbors,
                    first,
                    self.try_visit,
                    head as int,
                    offered_vec,
                );
            }
            head += 1;
        }
        proof {
            lemma_search_exhausted(
                tree@,
                log,
                at,
                *start_state,
                is_goal,
                neighbors,
                first,
                self.try_visit,
            );
        }
        None
    }
}

/// Searches level by level for a path from `start_state` to a goal.
///
/// - `is_goal` tells whether a state is a goal.
/// - `neighbors` gives the states that follow on a state.
/// - `try_visit` is asked about each state with its depth, and says whether the search
///   shall take the state in; a state that was seen before is to be turned down.
///
/// Returns the path from a clone of the start to the first goal that was taken in, or
/// `None` when nothing is left to expand. How short that path is depends on what
/// `try_visit` turns down.
pub fn find_path<T, FGoal, FNext, FVisit>(
    start_state: &T,
    is_goal: FGoal,
    neighbors: FNext,
    try_visit: FVisit,
) -> (r: Option<Vec<T>>) where
    T: Clone,
    FGoal: Fn(&T) -> bool,
    FNext: Fn(&T) -> Vec<T>,
    FVisit: FnMut(&T, usize) -> bool,

    requires
        forall|state: &T| call_requires(is_goal, (state,)),
        forall|state: &T| call_requires(neighbors, (state,)),
        forall|state: &T, depth: usize| call_requires(try_visit, (state, depth)),
    ensures
        r matches Some(path) ==> is_route(
            *start_state,
            goal_relation(is_goal),
            step_relation(neighbors),
            path@,
        ),
        (forall|path: Seq<T>|
            !is_route(*start_state, goal_relation(is_goal), step_relation(neighbors), path))
            ==> r is None,
        is_goal_at_once(*start_state, goal_relation(is_goal)) && is_taken_at_once(
            *start_state,
            try_visit,
        ) ==> (r matches Some(path) && path@.len() == 1),
        is_refused_at_once(*start_state, try_visit) ==> r is None,
        exists|log: Seq<Visit<T, FVisit>>|
            {
                &&& #[trigger] is_record_of(
                    log,
                    *start_state,
                    goal_relation(is_goal),
                    step_relation(neighbors),
                    try_visit,
                    try_visit,
                    as_seq(r),
                )
                &&& is_answered_by(log, try_visit)
            },
{
    let mut finder = PathFinder::new(is_goal, neighbors, try_visit);
    let r = finder.find(start_state);
    proof {
        let log = choose|log: Seq<Visit<T, FVisit>>| #[trigger]
            is_record_of(
                log,
                *start_state,
                goal_relation(is_goal),
                step_relation(neighbors),
                try_visit,
                finder.try_visit,
                as_seq(r),
            );
        lemma_function_stays(log, try_visit, finder.try_visit);
    }
    r
}

} // verus!
