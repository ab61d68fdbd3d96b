use vstd::prelude::*;
use core::ops::{BitAnd, BitOr, Not};
use crate::bit_pattern::BitPattern;
use crate::cells::{
    cell, complement_bits, edge_bits, fits, lemma_mask_cells, mask_bits, opposite, shift_bits,
    shifted_cell, PAYLOAD_MASK,
};
use crate::direction::Direction;
use crate::piece::Piece;

verus! {

/// A board: an image in which each cell holds the label of the piece that covers it, or 0.
#[derive(Clone, Copy, PartialEq, Eq, Debug, Structural)]
pub struct Board {
    pub image: BitPattern,
}

/// Whether the piece with this label can slide one cell on the image `v`: it is on the
/// board, it does not touch the edge it would slide into, and no other piece lies in
/// its way.
pub open spec fn can_move(v: u128, label: u128, code: u128) -> bool {
    let piece_mask = mask_bits(v, label);
    &&& piece_mask != 0
    &&& piece_mask & edge_bits(code) == 0
    &&& (v & complement_bits(piece_mask)) & shift_bits(piece_mask, code) == 0
}

/// The image after the piece with this label slid one cell: the piece one cell over, all
/// other cells as they were.
pub open spec fn slid_image(v: u128, label: u128, code: u128) -> u128 {
    let piece_mask = mask_bits(v, label);
    (v & complement_bits(piece_mask)) | shift_bits(v & piece_mask, code)
}

/// Where a piece may slide, the slid image shows the piece exactly one cell over.
proof fn lemma_slid_mask(v: u128, label: u128, code: u128, piece_mask: u128)
    by (bit_vector)
    requires
        fits(v),
        1 <= label <= 15,
        code < 4,
        piece_mask == mask_bits(v, label),
        piece_mask & edge_bits(code) == 0,
        (v & complement_bits(piece_mask)) & shift_bits(piece_mask, code) == 0,
    ensures
        mask_bits((v & complement_bits(piece_mask)) | shift_bits(v & piece_mask, code), label)
            == shift_bits(piece_mask, code),
{
}

/// A set of cells that slid one way without touching the edge or another piece can slide
/// back, and all is as before.
proof fn lemma_slid_cells_return(v: u128, code: u128, piece_mask: u128)
    by (bit_vector)
    requires
        fits(v),
        fits(piece_mask),
        code < 4,
        piece_mask != 0,
        piece_mask & edge_bits(code) == 0,
        (v & complement_bits(piece_mask)) & shift_bits(piece_mask, code) == 0,
    ensures
        ({
            let slid = (v & complement_bits(piece_mask)) | shift_bits(v & piece_mask, code);
            let slid_mask = shift_bits(piece_mask, code);
            let back = opposite(code);
            &&& fits(slid)
            &&& slid_mask != 0
            &&& slid_mask & edge_bits(back) == 0
            &&& (slid & complement_bits(slid_mask)) & shift_bits(slid_mask, back) == 0
            &&& (slid & complement_bits(slid_mask)) | shift_bits(slid & slid_mask, back) == v
        }),
{
}

/// What a slide does to the cells: the piece covers the cells one step on from those it
/// covered, the cells it left are empty, and every other cell is as it was.
pub proof fn lemma_slid_cells(v: u128, label: u128, code: u128, i: u128)
    by (bit_vector)
    requires
        fits(v),
        1 <= label <= 15,
        code < 4,
        i < 20,
        can_move(v, label, code),
    ensures
        cell(slid_image(v, label, code), i) == (if shifted_cell(mask_bits(v, label), code, i)
            == 15 {
            label
        } else if cell(v, i) == label {
            0
        } else {
            cell(v, i)
        }),
{
}

/// Where a piece may slide, the slid image shows every other piece where it was.
proof fn lemma_slid_other_mask(v: u128, label: u128, code: u128, other: u128, piece_mask: u128)
    by (bit_vector)
    requires
        fits(v),
        1 <= label <= 15,
        1 <= other <= 15,
        other != label,
        code < 4,
        piece_mask == mask_bits(v, label),
        piece_mask & edge_bits(code) == 0,
        (v & complement_bits(piece_mask)) & shift_bits(piece_mask, code) == 0,
    ensures
        mask_bits((v & complement_bits(piece_mask)) | shift_bits(v & piece_mask, code), other)
            == mask_bits(v, other),
{
}

/// A slide moves one piece only: it covers the cells one step on from those it covered,
/// and every other piece covers the cells it covered before.
pub proof fn lemma_slide_keeps_other_pieces(v: u128, label: u128, code: u128, other: u128)
    requires
        fits(v),
        1 <= label <= 15,
        1 <= other <= 15,
        other != label,
        code < 4,
        can_move(v, label, code),
    ensures
        mask_bits(slid_image(v, label, code), other) == mask_bits(v, other),
        mask_bits(slid_image(v, label, code), label) == shift_bits(mask_bits(v, label), code),
{
    let piece_mask = mask_bits(v, label);
    lemma_slid_other_mask(v, label, code, other, piece_mask);
    lemma_slid_mask(v, label, code, piece_mask);
}

/// A slide can always be taken back: after a piece slid one way it can slide the opposite
/// way, and that restores the image.
pub proof fn lemma_slide_back(v: u128, label: u128, code: u128)
    requires
        fits(v),
        1 <= label <= 15,
        code < 4,
        can_move(v, label, code),
    ensures
        can_move(slid_image(v, label, code), label, opposite(code)),
        slid_image(slid_image(v, label, code), label, opposite(code)) == v,
        fits(slid_image(v, label, code)),
{
    let piece_mask = mask_bits(v, label);
    lemma_mask_cells(v, label, 0);
    lemma_slid_mask(v, label, code, piece_mask);
    lemma_slid_cells_return(v, code, piece_mask);
}

/// A move can always be taken back: after a piece moved in a direction it can move in the
/// opposite direction, and that restores the board.
pub proof fn lemma_move_back(v: u128, piece: Piece, direction: Direction)
    requires
        fits(v),
        piece.is_label(),
        can_move(v, piece.id as u128, direction.code()),
    ensures
        can_move(
            slid_image(v, piece.id as u128, direction.code()),
            piece.id as u128,
            direction.spec_reversed().code(),
        ),
        slid_image(
            slid_image(v, piece.id as u128, direction.code()),
            piece.id as u128,
            direction.spec_reversed().code(),
        ) == v,
{
    Direction::lemma_reversed_involution(direction);
    lemma_slide_back(v, piece.id as u128, direction.code());
}

impl Board {
    /// Creates a `Board` from the eighty bits of its image.
    pub fn new(input: u128) -> (r: Self)
        requires
            input <= PAYLOAD_MASK,
        ensures
            r.image@ == input,
    {
        Self::from_bitpattern(BitPattern::new(input))
    }

    /// Creates a `Board` from its image.
    pub fn from_bitpattern(image: BitPattern) -> (r: Self)
        ensures
            r.image == image,
    {
        Self { image }
    }

    /// Slides a piece one cell in a direction. Returns the new board, or `None` when the
    /// piece is not on the board, touches the edge on that side, or is blocked by another
    /// piece.
    pub fn move_piece(&self, piece: Piece, direction: Direction) -> (r: Option<Board>)
        requires
            piece.id <= 15,
        ensures
            match r {
                Some(next) => can_move(self.image@, piece.id as u128, direction.code())
                    && next.image@ == slid_image(self.image@, piece.id as u128, direction.code()),
                None => !can_move(self.image@, piece.id as u128, direction.code()),
            },
    {
        let piece_mask = self.image.mask_of(piece);
        if piece_mask.is_empty() {
            return None;
        }
        let edge_mask = match direction {
            Direction::Up => BitPattern::new(0xffff_0000_0000_0000_0000),
            Direction::Down => BitPattern::new(0x0000_0000_0000_0000_ffff),
            Direction::Left => BitPattern::new(0xf000_f000_f000_f000_f000),
            Direction::Right => BitPattern::new(0x000f_000f_000f_000f_000f),
        };
        if piece_mask.bitand(edge_mask).is_not_empty() {
            return None;
        }
        let other_pieces = self.image.bitand(piece_mask.not());
        let moved_piece_mask = piece_mask.moved(direction);
        if other_pieces.bitand(moved_piece_mask).is_not_empty() {
            return None;
        }
        let target_piece = self.image.bitand(piece_mask);
        let moved_target_piece = target_piece.moved(direction);
        let next_board = Board::from_bitpattern(other_pieces.bitor(moved_target_piece));
        Some(next_board)
    }
}

} // verus!
