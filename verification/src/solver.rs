use vstd::prelude::*;
use vstd::pervasive::cloned;
use crate::bfs::{
    as_seq, goal_relation, is_record_of, is_route, is_search, lemma_record_weakens,
    lemma_search_goes_level_by_level, step_relation, PathFinder, Visit, Visitor,
};
use crate::bfs::unique::{agree_up_to, is_certain, lemma_record_is_unique};
use crate::bit_pattern::BitPattern;
use crate::board::{can_move, slid_image, Board};
use crate::board_key::{canonical, BoardKey};
use crate::cells::mask_bits;
use crate::direction::Direction;
use crate::move_path::MovePath;
use crate::piece::Piece;
use crate::rule::Rule;
use crate::state::State;
use crate::visited_history::{is_levelled, Generations, VisitedHistory};

verus! {

broadcast use vstd::std_specs::hash::group_hash_axioms;

/// The four directions in the order in which moves are tried.
pub open spec fn directions() -> Seq<Direction> {
    seq![Direction::Up, Direction::Down, Direction::Left, Direction::Right]
}

/// The state that a step leads to: the board with image `v`, reached by moving `piece`
/// along `path`.
pub open spec fn state_after(v: u128, piece: Piece, path: MovePath) -> State {
    State { board: Board { image: BitPattern::spec_new(v) }, piece: Some(piece), path }
}

/// The steps in which `piece`, having slid in direction `first` to the image `v`, slides
/// once more, in one of the first `n` directions but not straight back.
pub open spec fn second_moves(v: u128, piece: Piece, first: Direction, n: nat) -> Seq<State>
    decreases n,
{
    if n == 0 {
        Seq::empty()
    } else {
        let before = second_moves(v, piece, first, (n - 1) as nat);
        let d = directions()[n - 1];
        if d != first.spec_reversed() && can_move(v, piece.id as u128, d.code()) {
            before.push(
                state_after(slid_image(v, piece.id as u128, d.code()), piece, MovePath::Two(first, d)),
            )
        } else {
            before
        }
    }
}

/// The steps in which `piece` slides on the image `v` in one of the first `n` directions,
/// each followed by the steps in which it slides once more.
pub open spec fn first_moves(v: u128, piece: Piece, n: nat) -> Seq<State>
    decreases n,
{
    if n == 0 {
        Seq::empty()
    } else {
        let before = first_moves(v, piece, (n - 1) as nat);
        let d = directions()[n - 1];
        if can_move(v, piece.id as u128, d.code()) {
            let slid = slid_image(v, piece.id as u128, d.code());
            before.push(state_after(slid, piece, MovePath::One(d))) + second_moves(slid, piece, d, 4)
        } else {
            before
        }
    }
}

/// The steps that one of the first `n` pieces can take on the image `v`, the piece that
/// moved last left out.
pub open spec fn moves(v: u128, pieces: Seq<Piece>, last: Option<Piece>, n: nat) -> Seq<State>
    decreases n,
{
    if n == 0 {
        Seq::empty()
    } else {
        let before = moves(v, pieces, last, (n - 1) as nat);
        if last == Some(pieces[n - 1]) {
            before
        } else {
            before + first_moves(v, pieces[n - 1], 4)
        }
    }
}

/// The states that follow on `state`: every piece but the one that moved last, in the
/// order of the pieces, slid by one cell or by two, in the order of the directions.
pub open spec fn neighbors_of(pieces: Seq<Piece>, state: State) -> Seq<State> {
    moves(state.board.image@, pieces, state.piece, pieces.len())
}

/// The state in which the search for a solution of the rule starts.
pub open spec fn start_of(rule: Rule) -> State {
    State { board: rule.start, piece: None, path: MovePath::Start }
}

/// Whether the large piece stands on the goal of the rule.
pub open spec fn is_finished_state(rule: Rule, state: State) -> bool {
    mask_bits(state.board.image@, 1) == rule.goal_mask@
}

/// The test for the goal of a rule, as a relation between a state and the answer.
pub open spec fn finished_relation(rule: Rule) -> spec_fn(State, bool) -> bool {
    |state: State, answer: bool| answer == is_finished_state(rule, state)
}

/// The steps under a rule, as a relation between a state and the states that follow on
/// it.
pub open spec fn moves_relation(rule: Rule) -> spec_fn(State, Seq<State>) -> bool {
    |state: State, offered: Seq<State>| offered == neighbors_of(rule.pieces@, state)
}

/// The memory of the search for a solution: the keys of the boards that were seen on the
/// level the search is at and on the two levels before it.
pub struct BoardMemory<'a> {
    pub rule: &'a Rule,
    pub history: VisitedHistory<u128>,
}

impl<'a> Visitor<State> for BoardMemory<'a> {
    open spec fn inv(&self) -> bool {
        self.rule.is_valid()
    }

    open spec fn outcome(&self, state: &State, depth: usize, accepted: bool, after: &Self) -> bool {
        let key = canonical(state.board.image@, self.rule.pairs@);
        &&& after.rule == self.rule
        &&& accepted == self.history@.accepts(key, depth as nat)
        &&& after.history@ == self.history@.visited(key, depth as nat)
    }

    /// Takes a state in unless the key of its board is remembered.
    fn try_visit(&mut self, state: &State, depth: usize) -> (accepted: bool) {
        let key = BoardKey::create(self.rule, &state.board);
        self.history.try_visit(key.key.get_u128(), depth)
    }
}

/// The keys and depths that a search under `rule` puts to its memory, in their order.
pub open spec fn visits_of(log: Seq<Visit<State, BoardMemory>>) -> Seq<(u128, nat)> {
    Seq::new(
        log.len(),
        |i: int| (canonical(log[i].state.board.image@, log[i].before.rule.pairs@), log[i].depth as nat),
    )
}

/// The search for a solution asks its memory level by level, as the memory expects: each
/// depth is that of the question before it, or one more.
pub proof fn lemma_visits_are_levelled(
    log: Seq<Visit<State, BoardMemory>>,
    neighbors: spec_fn(State, Seq<State>) -> bool,
)
    requires
        is_search(log, neighbors),
    ensures
        is_levelled(0, visits_of(log)),
{
    let visits = visits_of(log);
    assert forall|i: int| 0 <= i < visits.len() implies {
        let before = if i == 0 {
            0nat
        } else {
            visits[i - 1].1
        };
        (#[trigger] visits[i]).1 == before || visits[i].1 == before + 1
    } by {
        lemma_search_goes_level_by_level(log, neighbors, i);
    }
}

/// Whether two memories of a search for a solution are the same: they belong to the same
/// rule and remember the same keys.
pub open spec fn same_memory<'a>() -> spec_fn(BoardMemory<'a>, BoardMemory<'a>) -> bool {
    |one: BoardMemory<'a>, other: BoardMemory<'a>|
        *one.rule == *other.rule && one.history@ == other.history@
}

/// The search for a solution is a function of the rule: two records of it, each begun with
/// a memory that has seen nothing, put the same questions in the same order and tell of
/// the same result.
pub proof fn lemma_solve_gives_one_result<'a>(
    rule: Rule,
    one: Seq<Visit<State, BoardMemory<'a>>>,
    other: Seq<Visit<State, BoardMemory<'a>>>,
    first_one: BoardMemory<'a>,
    first_other: BoardMemory<'a>,
    last_one: BoardMemory<'a>,
    last_other: BoardMemory<'a>,
    result_one: Option<Seq<State>>,
    result_other: Option<Seq<State>>,
)
    requires
        *first_one.rule == rule,
        *first_other.rule == rule,
        first_one.history@ == Generations::<u128>::fresh(),
        first_other.history@ == Generations::<u128>::fresh(),
        is_record_of(
            one,
            start_of(rule),
            finished_relation(rule),
            moves_relation(rule),
            first_one,
            last_one,
            result_one,
        ),
        is_record_of(
            other,
            start_of(rule),
            finished_relation(rule),
            moves_relation(rule),
            first_other,
            last_other,
            result_other,
        ),
    ensures
        one.len() == other.len(),
        agree_up_to(one, other, same_memory(), one.len() - 1),
        result_one == result_other,
{
    assert(is_certain::<State, BoardMemory<'a>>(
        finished_relation(rule),
        moves_relation(rule),
        same_memory(),
    ));
    lemma_record_is_unique(
        one,
        other,
        start_of(rule),
        finished_relation(rule),
        moves_relation(rule),
        first_one,
        first_other,
        last_one,
        last_other,
        result_one,
        result_other,
        same_memory(),
    );
}

/// Returns direction `i` in the order in which moves are tried.
fn direction_at(i: usize) -> (d: Direction)
    requires
        i < 4,
    ensures
        d == directions()[i as int],
{
    if i == 0 {
        Direction::Up
    } else if i == 1 {
        Direction::Down
    } else if i == 2 {
        Direction::Left
    } else {
        Direction::Right
    }
}

/// Adds the steps in which `piece`, having slid in direction `first`, slides once more.
fn push_second_moves(next_states: &mut Vec<State>, board: &Board, piece: Piece, first: Direction)
    requires
        piece.id <= 15,
    ensures
        final(next_states)@ == old(next_states)@ + second_moves(board.image@, piece, first, 4),
{
    let ghost before = next_states@;
    let mut i: usize = 0;
    while i < 4
        invariant
            i <= 4,
            piece.id <= 15,
            next_states@ == before + second_moves(board.image@, piece, first, i as nat),
        decreases 4 - i,
    {
        let direction2 = direction_at(i);
        let ghost so_far = second_moves(board.image@, piece, first, i as nat);
        if first.reversed() != direction2 {
            if let Some(next2_board) = board.move_piece(piece, direction2) {
                let next2_state = State {
                    board: next2_board,
                    piece: Some(piece),
                    path: MovePath::Two(first, direction2),
                };
                proof {
                    let slid = slid_image(board.image@, piece.id as u128, direction2.code());
                    BitPattern::lemma_new_holds_image(slid);
                    BitPattern::lemma_view_determines(next2_board.image, BitPattern::spec_new(slid));
                    assert(next2_state == state_after(slid, piece, MovePath::Two(first, direction2)));
                }
                next_states.push(next2_state);
                assert(next_states@ =~= before + so_far.push(next2_state));
            }
        }
        i += 1;
    }
}

/// Adds the steps in which `piece` slides by one cell, each followed by the steps in
/// which it slides once more.
fn push_first_moves(next_states: &mut Vec<State>, board: &Board, piece: Piece)
    requires
        piece.id <= 15,
    ensures
        final(next_states)@ == old(next_states)@ + first_moves(board.image@, piece, 4),
{
    let ghost before = next_states@;
    let mut i: usize = 0;
    while i < 4
        invariant
            i <= 4,
            piece.id <= 15,
            next_states@ == before + first_moves(board.image@, piece, i as nat),
        decreases 4 - i,
    {
        let direction = direction_at(i);
        let ghost so_far = first_moves(board.image@, piece, i as nat);
        if let Some(next_board) = board.move_piece(piece, direction) {
            let next_state = State {
                board: next_board,
                piece: Some(piece),
                path: MovePath::One(direction),
            };
            let ghost slid = slid_image(board.image@, piece.id as u128, direction.code());
            proof {
                BitPattern::lemma_new_holds_image(slid);
                BitPattern::lemma_view_determines(next_board.image, BitPattern::spec_new(slid));
                assert(next_state == state_after(slid, piece, MovePath::One(direction)));
            }
            next_states.push(next_state);
            push_second_moves(next_states, &next_board, piece, direction);
            assert(next_states@ =~= before + (so_far.push(next_state) + second_moves(
                slid,
                piece,
                direction,
                4,
            )));
        }
        i += 1;
    }
}

/// Returns the states that follow on `current_state` under the rule: for each piece but
/// the one that moved last, every slide by one cell and every slide by two.
pub fn get_neighbors(rule: &Rule, current_state: &State) -> (next_states: Vec<State>)
    requires
        rule.is_valid(),
    ensures
        next_states@ == neighbors_of(rule.pieces@, *current_state),
{
    let mut next_states: Vec<State> = Vec::new();
    let current_board = &current_state.board;
    let mut k: usize = 0;
    while k < rule.pieces.len()
        invariant
            k <= rule.pieces@.len(),
            rule.is_valid(),
            current_board == current_state.board,
            next_states@ == moves(
                current_state.board.image@,
                rule.pieces@,
                current_state.piece,
                k as nat,
            ),
        decreases rule.pieces@.len() - k,
    {
        let piece = rule.pieces[k];
        let moved_last = match current_state.piece {
            Some(prev_piece) => prev_piece == piece,
            None => false,
        };
        if !moved_last {
            push_first_moves(&mut next_states, current_board, piece);
        }
        k += 1;
    }
    next_states
}

/// Solves the puzzle by a search that goes level by level from the start board of the
/// rule. Returns the states from the start to the first state found in which the large
/// piece stands on the goal, or `None` when the search ends without one.
pub fn solve(rule: &Rule) -> (r: Option<Vec<State>>)
    requires
        rule.is_valid(),
    ensures
        r matches Some(path) ==> is_route(
            start_of(*rule),
            finished_relation(*rule),
            moves_relation(*rule),
            path@,
        ),
        r matches Some(path) ==> path@[0] == start_of(*rule),
        (forall|path: Seq<State>|
            !is_route(start_of(*rule), finished_relation(*rule), moves_relation(*rule), path))
            ==> r is None,
        is_finished_state(*rule, start_of(*rule)) ==> (r matches Some(path) && path@ == seq![
            start_of(*rule),
        ]),
        exists|log: Seq<Visit<State, BoardMemory>>, first: BoardMemory, last: BoardMemory|
            {
                &&& first.rule == rule
                &&& first.history@ == Generations::<u128>::fresh()
                &&& #[trigger] is_record_of(
                    log,
                    start_of(*rule),
                    finished_relation(*rule),
                    moves_relation(*rule),
                    first,
                    last,
                    as_seq(r),
                )
            },
{
    let start_state = State { board: rule.start, piece: None, path: MovePath::Start };
    let is_goal = |s: &State| -> (b: bool)
        ensures
            b == is_finished_state(*rule, *s),
        { rule.is_finished(&s.board) };
    let neighbors = |s: &State| -> (v: Vec<State>)
        ensures
            v@ == neighbors_of(rule.pieces@, *s),
        { get_neighbors(rule, s) };
    let memory = BoardMemory { rule, history: VisitedHistory::new() };
    let ghost first = memory;
    let mut finder = PathFinder::new(is_goal, neighbors, memory);
    let r = finder.find(&start_state);
    proof {
        let log = choose|log: Seq<Visit<State, BoardMemory>>| #[trigger]
            is_record_of(
                log,
                start_state,
                goal_relation(is_goal),
                step_relation(neighbors),
                first,
                finder.try_visit,
                as_seq(r),
            );
        assert forall|state: State, offered: Seq<State>| #[trigger]
            step_relation(neighbors)(state, offered) implies moves_relation(*rule)(
            state,
            offered,
        ) by {
            let list = choose|list: Vec<State>| #[trigger]
                call_ensures(neighbors, (&state,), list) && list@ == offered;
        }
        lemma_record_weakens(
            log,
            start_state,
            goal_relation(is_goal),
            step_relation(neighbors),
            finished_relation(*rule),
            moves_relation(*rule),
            first,
            finder.try_visit,
            as_seq(r),
        );
    }
    r
}

} // verus!
