use vstd::prelude::*;
use crate::cells::opposite;

verus! {

/// One of the four ways a piece, or a whole image, can slide on the board.
#[derive(Clone, Copy, PartialEq, Eq, Structural, Debug)]
pub enum Direction {
    Up,
    Down,
    Left,
    Right,
}

impl Direction {
    /// The opposite direction, as a mathematical function.
    pub open spec fn spec_reversed(self) -> Direction {
        match self {
            Direction::Up => Direction::Down,
            Direction::Down => Direction::Up,
            Direction::Left => Direction::Right,
            Direction::Right => Direction::Left,
        }
    }

    /// A small number for each direction, in the order in which moves are tried:
    /// Up, Down, Left, Right.
    pub open spec fn code(self) -> u128 {
        match self {
            Direction::Up => 0,
            Direction::Down => 1,
            Direction::Left => 2,
            Direction::Right => 3,
        }
    }

    /// The name of the direction as it is shown to a reader.
    pub open spec fn spec_name(self) -> Seq<char> {
        match self {
            Direction::Up => seq!['U', 'p'],
            Direction::Down => seq!['D', 'o', 'w', 'n'],
            Direction::Left => seq!['L', 'e', 'f', 't'],
            Direction::Right => seq!['R', 'i', 'g', 'h', 't'],
        }
    }

    /// Returns the opposite direction.
    pub fn reversed(&self) -> (r: Direction)
        ensures
            r == self.spec_reversed(),
    {
        match self {
            Direction::Up => Direction::Down,
            Direction::Down => Direction::Up,
            Direction::Left => Direction::Right,
            Direction::Right => Direction::Left,
        }
    }

    /// Returns the name of the direction: `Up`, `Down`, `Left` or `Right`.
    pub fn name(&self) -> (r: &'static str)
        ensures
            r@ == self.spec_name(),
    {
        proof {
            reveal_strlit("Up");
            reveal_strlit("Down");
            reveal_strlit("Left");
            reveal_strlit("Right");
        }
        let r = match self {
            Direction::Up => "Up",
            Direction::Down => "Down",
            Direction::Left => "Left",
            Direction::Right => "Right",
        };
        assert(r@ =~= self.spec_name());
        r
    }

    /// Reversing twice gives the direction back, a direction is never its own opposite,
    /// and the opposite direction has the opposite code.
    pub proof fn lemma_reversed_involution(d: Direction)
        ensures
            d.spec_reversed().spec_reversed() == d,
            d.spec_reversed() != d,
            d.spec_reversed().code() == opposite(d.code()),
    {
    }
}

} // verus!
