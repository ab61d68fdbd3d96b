use vstd::prelude::*;
use crate::board::Board;
use crate::move_path::MovePath;
use crate::piece::Piece;

verus! {

/// A board together with the step that led to it: the piece that was moved and how. The
/// start has no such piece.
#[derive(Clone, Copy, PartialEq, Eq, Debug, Structural)]
pub struct State {
    pub board: Board,
    pub piece: Option<Piece>,
    pub path: MovePath,
}

} // verus!
