use vstd::prelude::*;
use crate::hex::{hex_of_u8, hex_u8};

verus! {

/// A piece of the puzzle, known by its label. Labels 1 to 15 name pieces; 0 marks an empty
/// cell and names no piece.
#[derive(Clone, Copy, PartialOrd, Ord, PartialEq, Eq, Hash, Debug, Structural)]
pub struct Piece {
    pub id: u8,
}

impl Piece {
    /// Whether the label is one that a piece on the board can carry.
    pub open spec fn is_label(self) -> bool {
        1 <= self.id <= 15
    }

    /// Creates a new `Piece` with the given label.
    pub fn new(id: u8) -> (r: Self)
        ensures
            r.id == id,
    {
        Self { id }
    }

    /// Writes the label as lower-case hexadecimal.
    pub fn render(&self) -> (r: String)
        ensures
            r@ == hex_u8(self.id as int),
    {
        hex_of_u8(self.id)
    }
}

} // verus!
