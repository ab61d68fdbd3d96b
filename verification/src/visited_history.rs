use vstd::prelude::*;
use std::collections::HashSet;
use std::hash::Hash;
use vstd::std_specs::hash::obeys_key_model;

verus! {

broadcast use vstd::std_specs::hash::group_hash_axioms;

/// What a `VisitedHistory` remembers: the keys seen at the depth it is at, those seen one
/// depth earlier, and those seen one depth before that.
#[verifier::reject_recursive_types(T)]
pub ghost struct Generations<T> {
    pub current: Set<T>,
    pub previous: Set<T>,
    pub pre_previous: Set<T>,
    pub depth: nat,
}

impl<T> Generations<T> {
    /// The memory of a new history: nothing seen, at depth 0.
    pub open spec fn fresh() -> Self {
        Generations {
            current: Set::empty(),
            previous: Set::empty(),
            pre_previous: Set::empty(),
            depth: 0,
        }
    }

    /// Whether the key is in one of the three generations.
    pub open spec fn remembers(self, key: T) -> bool {
        self.current.contains(key) || self.previous.contains(key) || self.pre_previous.contains(
            key,
        )
    }

    /// The memory as it is when a visit at `depth` arrives: on a change of depth each
    /// generation grows one step older, the oldest is dropped, and a new one begins.
    pub open spec fn turned_to(self, depth: nat) -> Self {
        if depth != self.depth {
            Generations {
                current: Set::empty(),
                previous: self.current,
                pre_previous: self.previous,
                depth,
            }
        } else {
            self
        }
    }

    /// Whether a visit of `key` at `depth` is accepted: the key is in none of the
    /// generations that are kept at that depth.
    pub open spec fn accepts(self, key: T, depth: nat) -> bool {
        !self.turned_to(depth).remembers(key)
    }

    /// The memory after a visit of `key` at `depth`.
    pub open spec fn visited(self, key: T, depth: nat) -> Self {
        let turned = self.turned_to(depth);
        if turned.remembers(key) {
            turned
        } else {
            Generations { current: turned.current.insert(key), ..turned }
        }
    }

    /// The memory after a series of visits, each given as a key and a depth.
    pub open spec fn visited_all(self, visits: Seq<(T, nat)>) -> Self
        decreases visits.len(),
    {
        if visits.len() == 0 {
            self
        } else {
            self.visited_all(visits.drop_last()).visited(visits.last().0, visits.last().1)
        }
    }

    /// Whether the key was taken in at depth `since` and not again: it is in the
    /// generation that belongs to that depth and in no other, or, from three depths
    /// later on, in none.
    pub open spec fn holds_since(self, key: T, since: nat) -> bool {
        &&& self.depth >= since
        &&& self.current.contains(key) == (self.depth == since)
        &&& self.previous.contains(key) == (self.depth == since + 1)
        &&& self.pre_previous.contains(key) == (self.depth == since + 2)
    }
}

/// Whether the visits come level by level, as a breadth-first search delivers them: each
/// depth is that of the visit before it, or one more. The first follows on `start`.
pub open spec fn is_levelled<T>(start: nat, visits: Seq<(T, nat)>) -> bool {
    forall|i: int|
        0 <= i < visits.len() ==> {
            let before = if i == 0 {
                start
            } else {
                visits[i - 1].1
            };
            (#[trigger] visits[i]).1 == before || visits[i].1 == before + 1
        }
}

/// A key is accepted on a new history whatever the depth, and the visit that follows it
/// at once with the same key and depth is rejected, whatever was remembered before.
pub proof fn lemma_visit_then_revisit<T>(memory: Generations<T>, key: T, depth: nat)
    ensures
        Generations::<T>::fresh().accepts(key, depth),
        !memory.visited(key, depth).accepts(key, depth),
{
}

/// After a key was accepted it is held since the depth of that visit.
pub proof fn lemma_accepted_is_held<T>(memory: Generations<T>, key: T, depth: nat)
    requires
        memory.accepts(key, depth),
    ensures
        memory.visited(key, depth).holds_since(key, depth),
{
}

/// One more visit on the same level or the next keeps a held key held, unless it takes
/// the key in anew; and the key is accepted exactly from the third level after it was
/// taken in.
pub proof fn lemma_held_step<T>(memory: Generations<T>, key: T, since: nat, other: T, depth: nat)
    requires
        memory.holds_since(key, since),
        depth == memory.depth || depth == memory.depth + 1,
    ensures
        memory.accepts(key, depth) == (depth >= since + 3),
        !(other == key && depth >= since + 3) ==> memory.visited(other, depth).holds_since(
            key,
            since,
        ),
{
}

/// A key that was taken in at some depth is rejected at that depth and the two that
/// follow, and accepted again from the third on, as long as the visits come level by
/// level and none of them took the key in again.
pub proof fn lemma_three_generations<T>(
    memory: Generations<T>,
    key: T,
    since: nat,
    visits: Seq<(T, nat)>,
    depth: nat,
)
    requires
        memory.holds_since(key, since),
        is_levelled(memory.depth, visits),
        forall|i: int|
            0 <= i < visits.len() ==> !((#[trigger] visits[i]).0 == key && visits[i].1 >= since
                + 3),
        depth == memory.visited_all(visits).depth || depth == memory.visited_all(visits).depth
            + 1,
    ensures
        memory.visited_all(visits).holds_since(key, since),
        memory.visited_all(visits).accepts(key, depth) == (depth >= since + 3),
{
    lemma_visits_keep_held(memory, key, since, visits);
    lemma_held_step(memory.visited_all(visits), key, since, key, depth);
}

/// Visits that come level by level and do not take the key in again keep it held.
pub proof fn lemma_visits_keep_held<T>(
    memory: Generations<T>,
    key: T,
    since: nat,
    visits: Seq<(T, nat)>,
)
    requires
        memory.holds_since(key, since),
        is_levelled(memory.depth, visits),
        forall|i: int|
            0 <= i < visits.len() ==> !((#[trigger] visits[i]).0 == key && visits[i].1 >= since
                + 3),
    ensures
        memory.visited_all(visits).holds_since(key, since),
        memory.visited_all(visits).depth == (if visits.len() == 0 {
            memory.depth
        } else {
            visits.last().1
        }),
    decreases visits.len(),
{
    if visits.len() > 0 {
        let earlier = visits.drop_last();
        let n = visits.len() - 1;
        assert(visits[n] == visits.last());
        assert forall|i: int| 0 <= i < earlier.len() implies {
            let before = if i == 0 {
                memory.depth
            } else {
                earlier[i - 1].1
            };
            (#[trigger] earlier[i]).1 == before || earlier[i].1 == before + 1
        } by {
            assert(earlier[i] == visits[i]);
            if i > 0 {
                assert(earlier[i - 1] == visits[i - 1]);
            }
        }
        assert forall|i: int| 0 <= i < earlier.len() implies !((#[trigger] earlier[i]).0 == key
            && earlier[i].1 >= since + 3) by {
            assert(earlier[i] == visits[i]);
        }
        lemma_visits_keep_held(memory, key, since, earlier);
        if n > 0 {
            assert(earlier.last() == visits[n - 1]);
        }
        lemma_held_step(memory.visited_all(earlier), key, since, visits[n].0, visits[n].1);
    }
}

/// The memory of a breadth-first search: the keys seen at the current depth and at the two
/// depths before it. Older keys are forgotten.
pub struct VisitedHistory<T: Eq + Hash> {
    current: HashSet<T>,
    previous: HashSet<T>,
    pre_previous: HashSet<T>,
    depth: usize,
}

impl<T: Eq + Hash> View for VisitedHistory<T> {
    type V = Generations<T>;

    closed spec fn view(&self) -> Generations<T> {
        Generations {
            current: self.current@,
            previous: self.previous@,
            pre_previous: self.pre_previous@,
            depth: self.depth as nat,
        }
    }
}

impl<T: Eq + Hash> VisitedHistory<T> {
    /// Creates a new `VisitedHistory` that has seen nothing.
    pub fn new() -> (r: Self)
        ensures
            r@ == Generations::<T>::fresh(),
    {
        Self {
            current: HashSet::new(),
            previous: HashSet::new(),
            pre_previous: HashSet::new(),
            depth: 0,
        }
    }

    /// Visits a key at a depth. On a change of depth the generations turn first. Returns
    /// `true`, and remembers the key, when none of the three generations holds it, and
    /// `false` when one does. The generations are those of the last three depths where
    /// the depths come as a search delivers them, level by level.
    pub fn try_visit(&mut self, node: T, depth: usize) -> (accepted: bool)
        ensures
            obeys_key_model::<T>() ==> accepted == old(self)@.accepts(node, depth as nat),
            obeys_key_model::<T>() ==> final(self)@ == old(self)@.visited(node, depth as nat),
    {
        if depth != self.depth {
            self.advance_generation();
            self.depth = depth;
        }
        if self.contains(&node) {
            false
        } else {
            self.current.insert(node);
            true
        }
    }

    fn contains(&self, node: &T) -> (r: bool)
        ensures
            obeys_key_model::<T>() ==> r == self@.remembers(*node),
    {
        self.current.contains(node) || self.previous.contains(node) || self.pre_previous.contains(
            node,
        )
    }

    fn advance_generation(&mut self)
        ensures
            final(self)@.current == Set::<T>::empty(),
            final(self)@.previous == old(self)@.current,
            final(self)@.pre_previous == old(self)@.previous,
            final(self)@.depth == old(self)@.depth,
    {
        std::mem::swap(&mut self.pre_previous, &mut self.previous);
        std::mem::swap(&mut self.previous, &mut self.current);
        self.current.clear();
    }
}

impl<T: Eq + Hash> Default for VisitedHistory<T> {
    fn default() -> (r: Self)
        ensures
            r@ == Generations::<T>::fresh(),
    {
        Self::new()
    }
}

} // verus!
