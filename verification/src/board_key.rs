use vstd::prelude::*;
use crate::bit_pattern::{
    is_matching, labels_in_range, lemma_symmetrize_cells, lemma_symmetrize_mirror_commute,
    lemma_symmetrize_twice, symmetrize_bits, BitPattern,
};
use crate::board::Board;
use crate::cells::{fits, lemma_mirror_cells, lemma_mirror_twice, mirror_bits};
use crate::piece::Piece;
use crate::rule::Rule;

verus! {

/// The identity of a board for the purpose of telling whether it was seen before: boards
/// that are mirror images of each other, or differ only by an exchange of paired pieces,
/// have the same key.
#[derive(Clone, Copy, PartialEq, Eq, Hash, Debug, Structural)]
pub struct BoardKey {
    pub key: BitPattern,
}

/// The smaller of two images, read as numbers.
pub open spec fn smaller(a: u128, b: u128) -> u128 {
    if b < a {
        b
    } else {
        a
    }
}

/// The key of the image `v`: the smallest of the image and its mirror image and, where
/// there are pairs, of the symmetrized image and its mirror image too.
pub open spec fn canonical(v: u128, pairs: Seq<(Piece, Piece)>) -> u128 {
    let plain = smaller(v, mirror_bits(v));
    if pairs.len() == 0 {
        plain
    } else {
        let symmetrized = symmetrize_bits(v, pairs);
        smaller(smaller(plain, symmetrized), mirror_bits(symmetrized))
    }
}

/// A board and its mirror image have the same key.
pub proof fn lemma_mirror_keeps_key(v: u128, pairs: Seq<(Piece, Piece)>)
    requires
        fits(v),
        labels_in_range(pairs),
    ensures
        canonical(mirror_bits(v), pairs) == canonical(v, pairs),
{
    lemma_mirror_twice(v);
    lemma_mirror_cells(v, 0);
    lemma_symmetrize_cells(v, pairs, 0);
    lemma_symmetrize_mirror_commute(v, pairs);
    lemma_mirror_twice(symmetrize_bits(v, pairs));
}

/// A board and its symmetrized form have the same key, where the pairs form a matching.
pub proof fn lemma_symmetrize_keeps_key(v: u128, pairs: Seq<(Piece, Piece)>)
    requires
        fits(v),
        is_matching(pairs),
        pairs.len() > 0,
    ensures
        canonical(symmetrize_bits(v, pairs), pairs) == canonical(v, pairs),
{
    lemma_symmetrize_twice(v, pairs);
}

impl BoardKey {
    /// Creates the key of a board under a rule.
    pub fn create(rule: &Rule, board: &Board) -> (r: BoardKey)
        requires
            rule.is_valid(),
        ensures
            r.key@ == canonical(board.image@, rule.pairs@),
    {
        let min_image = Self::min(board.image, board.image.mirrored());
        if rule.pairs.len() == 0 {
            return BoardKey { key: min_image };
        }
        let symmetrized_image = board.image.symmetrized(&rule.pairs);
        let min_image = Self::min(min_image, symmetrized_image);
        let symmetrized_mirrored = symmetrized_image.mirrored();
        let min_image = Self::min(min_image, symmetrized_mirrored);
        BoardKey { key: min_image }
    }

    fn min(a: BitPattern, b: BitPattern) -> (r: BitPattern)
        ensures
            r@ == smaller(a@, b@),
    {
        if b.get_u128() < a.get_u128() {
            b
        } else {
            a
        }
    }
}

} // verus!
