use vstd::prelude::*;
use vstd::pervasive::cloned;
use crate::bfs::{
    goal_relation, is_cut_short, is_expanded, is_kept, is_linked, is_offer, is_offered_at,
    is_reached, is_record_of, route, step_relation, Visit, Visitor,
};

verus! {

/// Whether the test for the goal, the successors and the memory are functions: whatever
/// they are asked, they have one answer to give, and memories that are the same before a
/// question are the same after it. `same` says which states of the memory count as the
/// same.
pub open spec fn is_certain<T, V: Visitor<T>>(
    is_goal: spec_fn(T, bool) -> bool,
    neighbors: spec_fn(T, Seq<T>) -> bool,
    same: spec_fn(V, V) -> bool,
) -> bool {
    &&& forall|s: T, a: bool, b: bool| #[trigger] is_goal(s, a) && #[trigger] is_goal(s, b) ==> a == b
    &&& forall|s: T, x: Seq<T>, y: Seq<T>|
        #[trigger] neighbors(s, x) && #[trigger] neighbors(s, y) ==> x == y
    &&& forall|one: V, other: V, s: T, d: usize, a: bool, after_a: V, b: bool, after_b: V|
        same(one, other) && #[trigger] one.outcome(&s, d, a, &after_a) && #[trigger] other.outcome(
            &s,
            d,
            b,
            &after_b,
        ) ==> a == b && same(after_a, after_b)
}

/// Whether two entries tell of the same question and the same answer, put to memories
/// that were the same before it and are the same after it.
pub open spec fn is_alike<T, V>(a: Visit<T, V>, b: Visit<T, V>, same: spec_fn(V, V) -> bool) -> bool {
    &&& a.state == b.state
    &&& a.kept == b.kept
    &&& a.depth == b.depth
    &&& a.accepted == b.accepted
    &&& a.parent == b.parent
    &&& same(a.before, b.before)
    &&& same(a.after, b.after)
}

/// Whether two records agree in every entry up to entry `i`.
pub open spec fn agree_up_to<T, V>(
    one: Seq<Visit<T, V>>,
    other: Seq<Visit<T, V>>,
    same: spec_fn(V, V) -> bool,
    i: int,
) -> bool {
    forall|j: int| 0 <= j <= i ==> #[trigger] is_alike(one[j], other[j], same)
}

/// Whether entry `j` of the record has its place among the successors `offered` for its
/// parent: the entries from `base` to `j` hold, one after the other, the first of them,
/// and no entry before `base` was reached from that parent.
pub open spec fn is_placed<T, V>(
    log: Seq<Visit<T, V>>,
    neighbors: spec_fn(T, Seq<T>) -> bool,
    j: int,
    offered: Seq<T>,
    base: int,
) -> bool {
    let p = log[j].parent->0;
    &&& neighbors(log[p].kept, offered)
    &&& 0 <= base <= j
    &&& j - base < offered.len()
    &&& forall|k: int| 0 <= k <= j - base ==> #[trigger] is_offer(log, offered, base, k, p)
    &&& forall|i: int| 0 <= i < log.len() && (#[trigger] log[i]).parent == Some(p) ==> base <= i
}

/// Every entry of a record but the opening one has its place among the successors that
/// were offered for its parent.
pub proof fn lemma_entry_is_placed<T: Clone, V: Visitor<T>>(
    log: Seq<Visit<T, V>>,
    start: T,
    is_goal: spec_fn(T, bool) -> bool,
    neighbors: spec_fn(T, Seq<T>) -> bool,
    first: V,
    last: V,
    result: Option<Seq<T>>,
    j: int,
) -> (place: (Seq<T>, int))
    requires
        is_record_of(log, start, is_goal, neighbors, first, last, result),
        1 <= j < log.len(),
    ensures
        is_placed(log, neighbors, j, place.0, place.1),
{
    let end = log.len() - 1;
    assert(is_reached(log, neighbors, j));
    let p = log[j].parent->0;
    if result is Some && p == log[end].parent->0 {
        let (offered, base) = choose|offered: Seq<T>, base: int| #[trigger]
            is_cut_short(log, neighbors, p, offered, base);
        assert forall|k: int| 0 <= k <= j - base implies #[trigger] is_offer(
            log,
            offered,
            base,
            k,
            p,
        ) by {}
        (offered, base)
    } else {
        if result is Some {
            assert(is_reached(log, neighbors, end));
            assert(log[j].parent->0 <= log[end].parent->0);
            assert(log[p].accepted);
        }
        assert(is_expanded(log, neighbors, p));
        let (offered, base) = choose|offered: Seq<T>, base: int| #[trigger]
            is_offered_at(log, neighbors, p, offered, base);
        assert forall|k: int| 0 <= k <= j - base implies #[trigger] is_offer(
            log,
            offered,
            base,
            k,
            p,
        ) by {}
        (offered, base)
    }
}

/// The same states of the memory, taken the other way round.
pub open spec fn turned<V>(same: spec_fn(V, V) -> bool) -> spec_fn(V, V) -> bool {
    |a: V, b: V| same(b, a)
}

/// Where two records of one search agree up to entry `i`, the next entry of the one was
/// not reached from an earlier entry than the next entry of the other.
proof fn lemma_next_parent_not_earlier<T: Clone, V: Visitor<T>>(
    one: Seq<Visit<T, V>>,
    other: Seq<Visit<T, V>>,
    start: T,
    is_goal: spec_fn(T, bool) -> bool,
    neighbors: spec_fn(T, Seq<T>) -> bool,
    first_one: V,
    first_other: V,
    last_one: V,
    last_other: V,
    result_one: Option<Seq<T>>,
    result_other: Option<Seq<T>>,
    same: spec_fn(V, V) -> bool,
    i: int,
)
    requires
        is_record_of(one, start, is_goal, neighbors, first_one, last_one, result_one),
        is_record_of(other, start, is_goal, neighbors, first_other, last_other, result_other),
        is_certain::<T, V>(is_goal, neighbors, same),
        0 <= i,
        i + 1 < one.len(),
        i + 1 < other.len(),
        agree_up_to(one, other, same, i),
    ensures
        one[i + 1].parent->0 >= other[i + 1].parent->0,
{
    let n = i + 1;
    assert(is_reached(one, neighbors, n));
    assert(is_reached(other, neighbors, n));
    let p = one[n].parent->0;
    let q = other[n].parent->0;
    if p < q {
        assert(is_alike(one[p], other[p], same));
        let end = other.len() - 1;
        if result_other is Some {
            assert(other[n].parent->0 <= other[end].parent->0);
            assert(is_reached(other, neighbors, end));
        }
        assert(is_expanded(other, neighbors, p));
        let (offered, base) = choose|offered: Seq<T>, base: int| #[trigger]
            is_offered_at(other, neighbors, p, offered, base);
        let place = lemma_entry_is_placed(
            one,
            start,
            is_goal,
            neighbors,
            first_one,
            last_one,
            result_one,
            n,
        );
        assert(place.0 == offered);
        let here = place.1;
        assert(is_offer(other, offered, base, 0, p));
        assert(is_offer(other, offered, base, offered.len() - 1, p));
        let block_end = base + offered.len() - 1;
        if block_end >= n {
            assert(other[n].parent->0 <= other[block_end].parent->0);
        }
        if base >= n {
            assert(other[n].parent->0 <= other[base].parent->0);
        }
        assert(is_alike(one[base], other[base], same));
        assert(here <= base);
        assert(is_offer(one, offered, here, 0, p));
        assert(is_alike(one[here], other[here], same));
        assert(base <= here);
    }
}

/// Records that agree one way round agree the other way round.
proof fn lemma_agree_turned<T, V>(
    one: Seq<Visit<T, V>>,
    other: Seq<Visit<T, V>>,
    same: spec_fn(V, V) -> bool,
    i: int,
)
    requires
        agree_up_to(one, other, same, i),
    ensures
        agree_up_to(other, one, turned(same), i),
{
    assert forall|j: int| 0 <= j <= i implies #[trigger] is_alike(
        other[j],
        one[j],
        turned(same),
    ) by {
        assert(is_alike(one[j], other[j], same));
    }
}

/// Where two records of one search agree up to entry `i`, they agree in the next entry.
proof fn lemma_next_entry_same<T: Clone, V: Visitor<T>>(
    one: Seq<Visit<T, V>>,
    other: Seq<Visit<T, V>>,
    start: T,
    is_goal: spec_fn(T, bool) -> bool,
    neighbors: spec_fn(T, Seq<T>) -> bool,
    first_one: V,
    first_other: V,
    last_one: V,
    last_other: V,
    result_one: Option<Seq<T>>,
    result_other: Option<Seq<T>>,
    same: spec_fn(V, V) -> bool,
    i: int,
)
    requires
        is_record_of(one, start, is_goal, neighbors, first_one, last_one, result_one),
        is_record_of(other, start, is_goal, neighbors, first_other, last_other, result_other),
        is_certain::<T, V>(is_goal, neighbors, same),
        0 <= i,
        i + 1 < one.len(),
        i + 1 < other.len(),
        agree_up_to(one, other, same, i),
    ensures
        is_alike(one[i + 1], other[i + 1], same),
{
    let n = i + 1;
    lemma_next_parent_not_earlier(
        one,
        other,
        start,
        is_goal,
        neighbors,
        first_one,
        first_other,
        last_one,
        last_other,
        result_one,
        result_other,
        same,
        i,
    );
    let same_turned = turned(same);
    lemma_agree_turned(one, other, same, i);
    assert(is_certain::<T, V>(is_goal, neighbors, same_turned));
    lemma_next_parent_not_earlier(
        other,
        one,
        start,
        is_goal,
        neighbors,
        first_other,
        first_one,
        last_other,
        last_one,
        result_other,
        result_one,
        same_turned,
        i,
    );
    assert(is_reached(one, neighbors, n));
    assert(is_reached(other, neighbors, n));
    let p = one[n].parent->0;
    assert(is_alike(one[p], other[p], same));
    let here = lemma_entry_is_placed(
        one,
        start,
        is_goal,
        neighbors,
        first_one,
        last_one,
        result_one,
        n,
    );
    let there = lemma_entry_is_placed(
        other,
        start,
        is_goal,
        neighbors,
        first_other,
        last_other,
        result_other,
        n,
    );
    let offered = here.0;
    assert(there.0 == offered);
    assert(is_offer(one, offered, here.1, 0, p));
    assert(is_offer(other, offered, there.1, 0, p));
    if here.1 <= i {
        assert(is_alike(one[here.1], other[here.1], same));
    }
    if there.1 <= i {
        assert(is_alike(one[there.1], other[there.1], same));
    }
    assert(here.1 == there.1);
    assert(is_offer(one, offered, here.1, n - here.1, p));
    assert(is_offer(other, offered, here.1, n - here.1, p));
    assert(is_linked(one, i));
    assert(is_linked(other, i));
    assert(is_alike(one[i], other[i], same));
    assert(is_kept(one[n]));
    assert(is_kept(other[n]));
    let a = one[n];
    let b = other[n];
    assert(a.before.outcome(&a.state, a.depth, a.accepted, &a.after));
    assert(b.before.outcome(&b.state, b.depth, b.accepted, &b.after));
    assert(a.state == b.state);
    assert(a.depth == b.depth);
    assert(same(a.before, b.before));
    assert(a.accepted == b.accepted && same(a.after, b.after));
}

/// Two records of one search agree as far as both go.
proof fn lemma_records_agree<T: Clone, V: Visitor<T>>(
    one: Seq<Visit<T, V>>,
    other: Seq<Visit<T, V>>,
    start: T,
    is_goal: spec_fn(T, bool) -> bool,
    neighbors: spec_fn(T, Seq<T>) -> bool,
    first_one: V,
    first_other: V,
    last_one: V,
    last_other: V,
    result_one: Option<Seq<T>>,
    result_other: Option<Seq<T>>,
    same: spec_fn(V, V) -> bool,
    i: int,
)
    requires
        is_record_of(one, start, is_goal, neighbors, first_one, last_one, result_one),
        is_record_of(other, start, is_goal, neighbors, first_other, last_other, result_other),
        is_certain::<T, V>(is_goal, neighbors, same),
        one[0].kept == other[0].kept,
        same(first_one, first_other),
        0 <= i < one.len(),
        i < other.len(),
    ensures
        agree_up_to(one, other, same, i),
    decreases i,
{
    if i == 0 {
        let a = one[0];
        let b = other[0];
        assert(is_kept(a));
        assert(is_kept(b));
        assert(a.before.outcome(&a.state, a.depth, a.accepted, &a.after));
        assert(b.before.outcome(&b.state, b.depth, b.accepted, &b.after));
        assert(a.accepted == b.accepted && same(a.after, b.after));
        assert(a.parent == b.parent);
        assert(is_alike(a, b, same));
    } else {
        lemma_records_agree(
            one,
            other,
            start,
            is_goal,
            neighbors,
            first_one,
            first_other,
            last_one,
            last_other,
            result_one,
            result_other,
            same,
            i - 1,
        );
        lemma_next_entry_same(
            one,
            other,
            start,
            is_goal,
            neighbors,
            first_one,
            first_other,
            last_one,
            last_other,
            result_one,
            result_other,
            same,
            i - 1,
        );
        assert forall|j: int| 0 <= j <= i implies #[trigger] is_alike(one[j], other[j], same) by {
            if j < i {
                assert(agree_up_to(one, other, same, i - 1));
            }
        }
    }
}

/// Of two records of one search, the second does not go on where the first has ended.
proof fn lemma_records_end_together<T: Clone, V: Visitor<T>>(
    one: Seq<Visit<T, V>>,
    other: Seq<Visit<T, V>>,
    start: T,
    is_goal: spec_fn(T, bool) -> bool,
    neighbors: spec_fn(T, Seq<T>) -> bool,
    first_one: V,
    first_other: V,
    last_one: V,
    last_other: V,
    result_one: Option<Seq<T>>,
    result_other: Option<Seq<T>>,
    same: spec_fn(V, V) -> bool,
)
    requires
        is_record_of(one, start, is_goal, neighbors, first_one, last_one, result_one),
        is_record_of(other, start, is_goal, neighbors, first_other, last_other, result_other),
        is_certain::<T, V>(is_goal, neighbors, same),
        one[0].kept == other[0].kept,
        same(first_one, first_other),
        one.len() <= other.len(),
    ensures
        one.len() == other.len(),
{
    let n = one.len() as int;
    if n < other.len() {
        lemma_records_agree(
            one,
            other,
            start,
            is_goal,
            neighbors,
            first_one,
            first_other,
            last_one,
            last_other,
            result_one,
            result_other,
            same,
            n - 1,
        );
        assert(is_alike(one[n - 1], other[n - 1], same));
        if result_one is Some {
            assert(is_goal(other[n - 1].state, true));
            assert(other[n - 1].accepted);
            assert(is_goal(other[n - 1].state, false));
        } else {
            assert(is_reached(other, neighbors, n));
            let p = other[n].parent->0;
            assert(is_alike(one[p], other[p], same));
            assert(is_expanded(one, neighbors, p));
            let (offered, base) = choose|offered: Seq<T>, base: int| #[trigger]
                is_offered_at(one, neighbors, p, offered, base);
            let there = lemma_entry_is_placed(
                other,
                start,
                is_goal,
                neighbors,
                first_other,
                last_other,
                result_other,
                n,
            );
            assert(there.0 == offered);
            assert(is_offer(one, offered, base, 0, p));
            assert(is_alike(one[base], other[base], same));
            assert(there.1 <= base);
            assert(is_offer(other, offered, there.1, 0, p));
            assert(is_alike(one[there.1], other[there.1], same));
            assert(base <= there.1);
        }
    }
}

/// The ways to one entry in two records that agree up to it are the same way.
proof fn lemma_routes_same<T, V>(
    one: Seq<Visit<T, V>>,
    other: Seq<Visit<T, V>>,
    same: spec_fn(V, V) -> bool,
    i: int,
)
    requires
        0 <= i < one.len(),
        i < other.len(),
        agree_up_to(one, other, same, i),
    ensures
        route(one, i) == route(other, i),
    decreases i,
{
    assert(is_alike(one[i], other[i], same));
    match one[i].parent {
        Some(p) => {
            if 0 <= p < i {
                assert forall|j: int| 0 <= j <= p implies #[trigger] is_alike(
                    one[j],
                    other[j],
                    same,
                ) by {}
                lemma_routes_same(one, other, same, p);
            }
        },
        None => {},
    }
}

/// A search has one record, and gives one result, where the test for the goal, the
/// successors, the memory and the clone of the start are functions: two records of a
/// search from one start, with memories that are the same at first, put the same questions
/// in the same order, get the same answers, leave the memories the same, and tell of the
/// same result.
pub proof fn lemma_record_is_unique<T: Clone, V: Visitor<T>>(
    one: Seq<Visit<T, V>>,
    other: Seq<Visit<T, V>>,
    start: T,
    is_goal: spec_fn(T, bool) -> bool,
    neighbors: spec_fn(T, Seq<T>) -> bool,
    first_one: V,
    first_other: V,
    last_one: V,
    last_other: V,
    result_one: Option<Seq<T>>,
    result_other: Option<Seq<T>>,
    same: spec_fn(V, V) -> bool,
)
    requires
        is_record_of(one, start, is_goal, neighbors, first_one, last_one, result_one),
        is_record_of(other, start, is_goal, neighbors, first_other, last_other, result_other),
        is_certain::<T, V>(is_goal, neighbors, same),
        same(first_one, first_other),
        forall|c: T, d: T| cloned(start, c) && cloned(start, d) ==> c == d,
    ensures
        one.len() == other.len(),
        agree_up_to(one, other, same, one.len() - 1),
        same(last_one, last_other),
        result_one == result_other,
{
    let same_turned = turned(same);
    if one.len() <= other.len() {
        lemma_records_end_together(
            one,
            other,
            start,
            is_goal,
            neighbors,
            first_one,
            first_other,
            last_one,
            last_other,
            result_one,
            result_other,
            same,
        );
    } else {
        assert(is_certain::<T, V>(is_goal, neighbors, same_turned));
        lemma_records_end_together(
            other,
            one,
            start,
            is_goal,
            neighbors,
            first_other,
            first_one,
            last_other,
            last_one,
            result_other,
            result_one,
            same_turned,
        );
    }
    let end = one.len() - 1;
    lemma_records_agree(
        one,
        other,
        start,
        is_goal,
        neighbors,
        first_one,
        first_other,
        last_one,
        last_other,
        result_one,
        result_other,
        same,
        end,
    );
    assert(is_alike(one[end], other[end], same));
    lemma_routes_same(one, other, same, end);
    if result_one is Some && result_other is None {
        assert(is_goal(other[end].state, false));
    }
    if result_other is Some && result_one is None {
        assert(is_goal(one[end].state, false));
    }
}

/// A search with functions for the test of the goal, for the successors and for the memory
/// has one record and gives one result: whoever runs it from one start, `PathFinder::find`
/// or `find_path`, puts the same questions in the same order and finds the same path.
pub proof fn lemma_functions_give_one_result<T, G, N, F>(
    start: T,
    is_goal: G,
    neighbors: N,
    try_visit: F,
    one: Seq<Visit<T, F>>,
    other: Seq<Visit<T, F>>,
    result_one: Option<Seq<T>>,
    result_other: Option<Seq<T>>,
) where T: Clone, G: Fn(&T) -> bool, N: Fn(&T) -> Vec<T>, F: FnMut(&T, usize) -> bool
    requires
        is_record_of(
            one,
            start,
            goal_relation(is_goal),
            step_relation(neighbors),
            try_visit,
            try_visit,
            result_one,
        ),
        is_record_of(
            other,
            start,
            goal_relation(is_goal),
            step_relation(neighbors),
            try_visit,
            try_visit,
            result_other,
        ),
        forall|s: T, a: bool, b: bool|
            #[trigger] call_ensures(is_goal, (&s,), a) && #[trigger] call_ensures(
                is_goal,
                (&s,),
                b,
            ) ==> a == b,
        forall|s: T, x: Vec<T>, y: Vec<T>|
            #[trigger] call_ensures(neighbors, (&s,), x) && #[trigger] call_ensures(
                neighbors,
                (&s,),
                y,
            ) ==> x@ == y@,
        forall|s: T, d: usize, a: bool, b: bool|
            #[trigger] call_ensures(try_visit, (&s, d), a) && #[trigger] call_ensures(
                try_visit,
                (&s, d),
                b,
            ) ==> a == b,
        forall|c: T, d: T| cloned(start, c) && cloned(start, d) ==> c == d,
    ensures
        one == other,
        result_one == result_other,
{
    let goal = goal_relation(is_goal);
    let step = step_relation(neighbors);
    let same = |a: F, b: F| a == try_visit && b == try_visit;
    assert forall|s: T, x: Seq<T>, y: Seq<T>| #[trigger] step(s, x) && #[trigger] step(
        s,
        y,
    ) implies x == y by {
        let list_x = choose|list: Vec<T>| #[trigger]
            call_ensures(neighbors, (&s,), list) && list@ == x;
        let list_y = choose|list: Vec<T>| #[trigger]
            call_ensures(neighbors, (&s,), list) && list@ == y;
    }
    assert forall|s: T, a: bool, b: bool| #[trigger] goal(s, a) && #[trigger] goal(s, b) implies a
        == b by {
        assert(call_ensures(is_goal, (&s,), a));
        assert(call_ensures(is_goal, (&s,), b));
    }
    assert forall|m: F, n: F, s: T, d: usize, a: bool, after_a: F, b: bool, after_b: F|
        same(m, n) && #[trigger] m.outcome(&s, d, a, &after_a) && #[trigger] n.outcome(
            &s,
            d,
            b,
            &after_b,
        ) implies a == b && same(after_a, after_b) by {
        assert(call_ensures(try_visit, (&s, d), a));
        assert(call_ensures(try_visit, (&s, d), b));
    }
    assert(is_certain::<T, F>(goal, step, same));
    lemma_record_is_unique(
        one,
        other,
        start,
        goal,
        step,
        try_visit,
        try_visit,
        try_visit,
        try_visit,
        result_one,
        result_other,
        same,
    );
    assert forall|j: int| 0 <= j < one.len() implies one[j] == other[j] by {
        assert(is_alike(one[j], other[j], same));
    }
    assert(one =~= other);
}

} // verus!
