use vstd::prelude::*;
use vstd::string::StringExecFns;
use crate::cells::{
    cell, complement_bits, edge_bits, fits, lemma_bitwise_cells, lemma_bottom_row,
    lemma_cell_bound, lemma_cells_determine, lemma_fold_exchanges, lemma_mask_cells,
    lemma_mirror_cells, lemma_rows, lemma_rows_compose, lemma_shift_cells,
    lemma_shift_round_trip, lemma_swap_cells, mask_bits, mirror_bits, mirrored_index, row,
    shift_bits, shifted_cell, swap_bits, PAYLOAD_MASK,
};
use crate::direction::Direction;
use crate::hex::{hex_char, hex_digit};
use crate::piece::Piece;

verus! {

/// A board image or a mask over the board: twenty cells of four bits, five rows of four,
/// held in the low eighty bits of a number. The top row is the most significant one.
#[derive(Clone, Copy, PartialOrd, Ord, PartialEq, Eq, Hash, Debug, Structural)]
pub struct BitPattern {
    pattern: u128,
}

impl View for BitPattern {
    type V = u128;

    closed spec fn view(&self) -> u128 {
        self.pattern
    }
}

/// Whether every label in `pairs` is at most 15.
pub open spec fn labels_in_range(pairs: Seq<(Piece, Piece)>) -> bool {
    forall|k: int| 0 <= k < pairs.len() ==> (#[trigger] pairs[k]).0.id <= 15 && pairs[k].1.id <= 15
}

/// What a cell that held `label` holds after the exchanges in `pairs`: for each pair that
/// names the label, the two labels of the pair are folded into it.
pub open spec fn relabel(label: u128, pairs: Seq<(Piece, Piece)>) -> u128
    decreases pairs.len(),
{
    if pairs.len() == 0 {
        label
    } else {
        let a = pairs.last().0.id as u128;
        let b = pairs.last().1.id as u128;
        let rest = relabel(label, pairs.drop_last());
        if label == a || label == b {
            rest ^ a ^ b
        } else {
            rest
        }
    }
}

/// The image `v` after the exchanges in `pairs`, each of them decided on `v` itself.
pub open spec fn symmetrize_bits(v: u128, pairs: Seq<(Piece, Piece)>) -> u128
    decreases pairs.len(),
{
    if pairs.len() == 0 {
        v
    } else {
        swap_bits(
            symmetrize_bits(v, pairs.drop_last()),
            v,
            pairs.last().0.id as u128,
            pairs.last().1.id as u128,
        )
    }
}

/// The four hexadecimal digits of one row.
pub open spec fn row_text(v: u128, r: u128) -> Seq<char> {
    seq![
        hex_char(cell(v, (4 * r) as u128) as int),
        hex_char(cell(v, (4 * r + 1) as u128) as int),
        hex_char(cell(v, (4 * r + 2) as u128) as int),
        hex_char(cell(v, (4 * r + 3) as u128) as int),
    ]
}

/// The first `n` rows in hexadecimal, from the top, joined by underscores.
pub open spec fn rows_text(v: u128, n: nat) -> Seq<char>
    decreases n,
{
    if n == 0 {
        Seq::empty()
    } else if n == 1 {
        row_text(v, 0)
    } else {
        rows_text(v, (n - 1) as nat) + seq!['_'] + row_text(v, (n - 1) as u128)
    }
}

/// An image as it is shown to a reader: its five rows in hexadecimal from top to bottom,
/// joined by underscores, in square brackets.
pub open spec fn image_text(v: u128) -> Seq<char> {
    seq!['['] + rows_text(v, 5) + seq![']']
}

/// Symmetrizing works cell by cell: each cell is relabelled by itself.
pub proof fn lemma_symmetrize_cells(v: u128, pairs: Seq<(Piece, Piece)>, i: u128)
    requires
        fits(v),
        labels_in_range(pairs),
        i < 20,
    ensures
        cell(symmetrize_bits(v, pairs), i) == relabel(cell(v, i), pairs),
        fits(symmetrize_bits(v, pairs)),
    decreases pairs.len(),
{
    if pairs.len() > 0 {
        let rest = pairs.drop_last();
        assert forall|k: int| 0 <= k < rest.len() implies (#[trigger] rest[k]).0.id <= 15
            && rest[k].1.id <= 15 by {
            assert(rest[k] == pairs[k]);
        }
        lemma_symmetrize_cells(v, rest, i);
        let last = pairs[pairs.len() - 1];
        lemma_swap_cells(symmetrize_bits(v, rest), v, last.0.id as u128, last.1.id as u128, i);
    }
}

/// Whether `pairs` names every label at most once: no two pairs share a label.
pub open spec fn is_matching(pairs: Seq<(Piece, Piece)>) -> bool {
    &&& labels_in_range(pairs)
    &&& forall|j: int, k: int|
        0 <= j < pairs.len() && 0 <= k < pairs.len() && j != k ==> {
            &&& (#[trigger] pairs[j]).0.id != (#[trigger] pairs[k]).0.id
            &&& pairs[j].0.id != pairs[k].1.id
            &&& pairs[j].1.id != pairs[k].0.id
            &&& pairs[j].1.id != pairs[k].1.id
        }
}

/// Whether some pair names the label.
pub open spec fn is_named(label: u128, pairs: Seq<(Piece, Piece)>) -> bool {
    exists|k: int|
        0 <= k < pairs.len() && (label == (#[trigger] pairs[k]).0.id || label == pairs[k].1.id)
}

/// A label that no pair names stays as it is.
pub proof fn lemma_relabel_unnamed(label: u128, pairs: Seq<(Piece, Piece)>)
    requires
        !is_named(label, pairs),
    ensures
        relabel(label, pairs) == label,
    decreases pairs.len(),
{
    if pairs.len() > 0 {
        let rest = pairs.drop_last();
        let n = pairs.len() - 1;
        assert(pairs[n] == pairs.last());
        assert(!is_named(label, rest)) by {
            if is_named(label, rest) {
                let k = choose|k: int|
                    0 <= k < rest.len() && (label == (#[trigger] rest[k]).0.id || label
                        == rest[k].1.id);
                assert(rest[k] == pairs[k]);
            }
        }
        lemma_relabel_unnamed(label, rest);
    }
}

/// In a matching, the two labels of a pair become each other.
pub proof fn lemma_relabel_exchanges(pairs: Seq<(Piece, Piece)>, k: int)
    requires
        is_matching(pairs),
        0 <= k < pairs.len(),
    ensures
        relabel(pairs[k].0.id as u128, pairs) == pairs[k].1.id,
        relabel(pairs[k].1.id as u128, pairs) == pairs[k].0.id,
    decreases pairs.len(),
{
    let rest = pairs.drop_last();
    let n = pairs.len() - 1;
    let a = pairs[k].0.id as u128;
    let b = pairs[k].1.id as u128;
    assert(pairs[n] == pairs.last());
    assert forall|j: int| 0 <= j < rest.len() implies rest[j] == pairs[j] by {}
    if k == n {
        assert(!is_named(a, rest)) by {
            if is_named(a, rest) {
                let j = choose|j: int|
                    0 <= j < rest.len() && (a == (#[trigger] rest[j]).0.id || a == rest[j].1.id);
                assert(rest[j] == pairs[j]);
            }
        }
        assert(!is_named(b, rest)) by {
            if is_named(b, rest) {
                let j = choose|j: int|
                    0 <= j < rest.len() && (b == (#[trigger] rest[j]).0.id || b == rest[j].1.id);
                assert(rest[j] == pairs[j]);
            }
        }
        lemma_relabel_unnamed(a, rest);
        lemma_relabel_unnamed(b, rest);
        lemma_fold_exchanges(a, b);
    } else {
        assert(is_matching(rest)) by {
            assert forall|i: int, j: int|
                0 <= i < rest.len() && 0 <= j < rest.len() && i != j implies {
                &&& (#[trigger] rest[i]).0.id != (#[trigger] rest[j]).0.id
                &&& rest[i].0.id != rest[j].1.id
                &&& rest[i].1.id != rest[j].0.id
                &&& rest[i].1.id != rest[j].1.id
            } by {
                assert(rest[i] == pairs[i]);
                assert(rest[j] == pairs[j]);
            }
        }
        lemma_relabel_exchanges(rest, k);
        assert(rest[k] == pairs[k]);
    }
}

/// In a matching, relabelling twice gives every label back.
pub proof fn lemma_relabel_twice(label: u128, pairs: Seq<(Piece, Piece)>)
    requires
        is_matching(pairs),
    ensures
        relabel(relabel(label, pairs), pairs) == label,
{
    if is_named(label, pairs) {
        let k = choose|k: int|
            0 <= k < pairs.len() && (label == (#[trigger] pairs[k]).0.id || label
                == pairs[k].1.id);
        lemma_relabel_exchanges(pairs, k);
    } else {
        lemma_relabel_unnamed(label, pairs);
    }
}

/// Symmetrizing by a matching twice gives the image back.
pub proof fn lemma_symmetrize_twice(v: u128, pairs: Seq<(Piece, Piece)>)
    requires
        fits(v),
        is_matching(pairs),
    ensures
        symmetrize_bits(symmetrize_bits(v, pairs), pairs) == v,
{
    let once = symmetrize_bits(v, pairs);
    let twice = symmetrize_bits(once, pairs);
    lemma_symmetrize_cells(v, pairs, 0);
    lemma_symmetrize_cells(once, pairs, 0);
    assert forall|i: u128| i < 20 implies cell(twice, i) == cell(v, i) by {
        lemma_symmetrize_cells(v, pairs, i);
        lemma_symmetrize_cells(once, pairs, i);
        lemma_relabel_twice(cell(v, i), pairs);
    }
    lemma_cells_determine(twice, v);
}

/// Symmetrizing and mirroring can be done in either order.
pub proof fn lemma_symmetrize_mirror_commute(v: u128, pairs: Seq<(Piece, Piece)>)
    requires
        fits(v),
        labels_in_range(pairs),
    ensures
        symmetrize_bits(mirror_bits(v), pairs) == mirror_bits(symmetrize_bits(v, pairs)),
{
    let left = symmetrize_bits(mirror_bits(v), pairs);
    let right = mirror_bits(symmetrize_bits(v, pairs));
    lemma_mirror_cells(v, 0);
    lemma_symmetrize_cells(v, pairs, 0);
    lemma_symmetrize_cells(mirror_bits(v), pairs, 0);
    lemma_mirror_cells(symmetrize_bits(v, pairs), 0);
    assert forall|i: u128| i < 20 implies cell(left, i) == cell(right, i) by {
        lemma_mirror_cells(v, i);
        lemma_symmetrize_cells(mirror_bits(v), pairs, i);
        lemma_mirror_cells(symmetrize_bits(v, pairs), i);
        lemma_symmetrize_cells(v, pairs, mirrored_index(i));
    }
    lemma_cells_determine(left, right);
}

impl BitPattern {
    #[verifier::type_invariant]
    closed spec fn within_payload(self) -> bool {
        fits(self.pattern)
    }

    /// The pattern whose eighty bits are `image`.
    pub closed spec fn spec_new(image: u128) -> Self {
        BitPattern { pattern: image }
    }

    /// A pattern holds exactly the bits it was made from.
    pub proof fn lemma_new_holds_image(image: u128)
        ensures
            Self::spec_new(image)@ == image,
    {
    }

    /// Two patterns are the same when their bits are.
    pub proof fn lemma_view_determines(a: Self, b: Self)
        ensures
            (a@ == b@) == (a == b),
    {
    }

    /// Creates a `BitPattern` from its eighty bits.
    pub fn new(image: u128) -> (r: Self)
        requires
            image <= PAYLOAD_MASK,
        ensures
            r == Self::spec_new(image),
            r@ == image,
    {
        Self { pattern: image }
    }

    /// Creates a `BitPattern` from its five rows, the top row first.
    pub fn from_u16_array(array: [u16; 5]) -> (r: Self)
        ensures
            forall|k: u128| k < 5 ==> #[trigger] row(r@, k) == array[k as int],
    {
        let pattern = ((array[0] as u128) << 64) | ((array[1] as u128) << 48) | ((array[2] as u128)
            << 32) | ((array[3] as u128) << 16) | (array[4] as u128);
        proof {
            lemma_rows_compose(
                array[0] as u128,
                array[1] as u128,
                array[2] as u128,
                array[3] as u128,
                array[4] as u128,
            );
        }
        Self { pattern }
    }

    /// Returns the five rows of the pattern, the top row first.
    pub fn to_u16_array(&self) -> (r: [u16; 5])
        ensures
            forall|k: u128| k < 5 ==> r[k as int] == #[trigger] row(self@, k),
    {
        let v = self.pattern;
        proof {
            use_type_invariant(self);
            lemma_rows(v, 0);
            lemma_rows(v, 1);
            lemma_rows(v, 2);
            lemma_rows(v, 3);
            lemma_rows(v, 4);
        }
        let top = (v >> 64) & 0xffff;
        let second = (v >> 48) & 0xffff;
        let third = (v >> 32) & 0xffff;
        let fourth = (v >> 16) & 0xffff;
        let bottom = v & 0xffff;
        assert(top == row(v, 0));
        assert(second == row(v, 1));
        assert(third == row(v, 2));
        assert(fourth == row(v, 3));
        assert(bottom == row(v, 4));
        [top as u16, second as u16, third as u16, fourth as u16, bottom as u16]
    }

    /// Returns the eighty bits of the pattern.
    pub fn get_u128(&self) -> (v: u128)
        ensures
            v == self@,
            v <= PAYLOAD_MASK,
    {
        proof {
            use_type_invariant(self);
        }
        self.pattern
    }

    /// Returns the label held in cell `index`, cells counted in reading order from the
    /// top-left one.
    pub fn cell_at(&self, index: u8) -> (label: u8)
        requires
            index < 20,
        ensures
            label == cell(self@, index as u128),
            label <= 15,
    {
        let shift: u128 = 4 * (19 - index as u128);
        proof {
            lemma_cell_bound(self.pattern, index as u128);
        }
        ((self.pattern >> shift) & 0xf) as u8
    }

    /// Checks whether every cell is empty.
    pub fn is_empty(&self) -> (r: bool)
        ensures
            r == (self@ == 0),
    {
        self.pattern == 0
    }

    /// Checks whether some cell is not empty.
    pub fn is_not_empty(&self) -> (r: bool)
        ensures
            r == (self@ != 0),
    {
        !self.is_empty()
    }

    /// The pattern slid one cell in a direction, as a function of its bits.
    pub open spec fn spec_moved(v: u128, direction: Direction) -> u128 {
        shift_bits(v, direction.code())
    }

    /// A pattern that has nothing along the edge it slides into comes back unchanged when
    /// it is slid there and back.
    pub proof fn lemma_moved_there_and_back(v: u128, direction: Direction)
        requires
            fits(v),
            v & edge_bits(direction.code()) == 0,
        ensures
            Self::spec_moved(Self::spec_moved(v, direction), direction.spec_reversed()) == v,
    {
        Direction::lemma_reversed_involution(direction);
        lemma_shift_round_trip(v, direction.code());
    }

    /// Slides the whole pattern one cell in `direction`. What leaves the board is lost,
    /// and the cells that come in are empty.
    pub fn moved(&self, direction: Direction) -> (r: Self)
        ensures
            r@ == Self::spec_moved(self@, direction),
            forall|i: u128|
                i < 20 ==> #[trigger] cell(r@, i) == shifted_cell(self@, direction.code(), i),
    {
        proof {
            use_type_invariant(self);
            assert forall|i: u128| i < 20 implies #[trigger] cell(
                shift_bits(self.pattern, direction.code()),
                i,
            ) == shifted_cell(self.pattern, direction.code(), i) by {
                lemma_shift_cells(self.pattern, direction.code(), i);
            }
        }
        match direction {
            Direction::Up => self.moved_up(),
            Direction::Down => self.moved_down(),
            Direction::Left => self.moved_left(),
            Direction::Right => self.moved_right(),
        }
    }

    fn moved_up(&self) -> (r: Self)
        ensures
            r@ == shift_bits(self@, 0),
    {
        proof {
            use_type_invariant(self);
            lemma_shift_cells(self.pattern, 0, 0);
        }
        Self { pattern: (self.pattern << 16) & PAYLOAD_MASK }
    }

    fn moved_down(&self) -> (r: Self)
        ensures
            r@ == shift_bits(self@, 1),
    {
        proof {
            use_type_invariant(self);
            lemma_shift_cells(self.pattern, 1, 0);
        }
        Self { pattern: (self.pattern >> 16) & PAYLOAD_MASK }
    }

    fn moved_left(&self) -> (r: Self)
        ensures
            r@ == shift_bits(self@, 2),
    {
        proof {
            use_type_invariant(self);
            lemma_shift_cells(self.pattern, 2, 0);
        }
        Self { pattern: (self.pattern << 4) & 0xfff0_fff0_fff0_fff0_fff0 }
    }

    fn moved_right(&self) -> (r: Self)
        ensures
            r@ == shift_bits(self@, 3),
    {
        proof {
            use_type_invariant(self);
            lemma_shift_cells(self.pattern, 3, 0);
        }
        Self { pattern: (self.pattern >> 4) & 0x0fff_0fff_0fff_0fff_0fff }
    }

    /// Mirrors the pattern about the vertical axis: each row is read from the other end.
    pub fn mirrored(&self) -> (r: Self)
        ensures
            r@ == mirror_bits(self@),
            forall|i: u128| i < 20 ==> #[trigger] cell(r@, i) == cell(self@, mirrored_index(i)),
    {
        proof {
            use_type_invariant(self);
            assert forall|i: u128| i < 20 implies #[trigger] cell(mirror_bits(self.pattern), i)
                == cell(self.pattern, mirrored_index(i)) by {
                lemma_mirror_cells(self.pattern, i);
            }
            lemma_mirror_cells(self.pattern, 0);
        }
        let pattern = (self.pattern << 12) & 0xf000_f000_f000_f000_f000 | (self.pattern << 4)
            & 0x0f00_0f00_0f00_0f00_0f00 | (self.pattern >> 4) & 0x00f0_00f0_00f0_00f0_00f0 | (
        self.pattern >> 12) & 0x000f_000f_000f_000f_000f;
        Self { pattern }
    }

    /// Exchanges the two labels of each pair, wherever they stand, in one pass over the
    /// cells.
    pub fn symmetrized(&self, pairs: &Vec<(Piece, Piece)>) -> (r: BitPattern)
        requires
            labels_in_range(pairs@),
        ensures
            r@ == symmetrize_bits(self@, pairs@),
            forall|i: u128| i < 20 ==> #[trigger] cell(r@, i) == relabel(cell(self@, i), pairs@),
    {
        proof {
            use_type_invariant(self);
        }
        let mut new_pattern = self.pattern;
        let mut k: usize = 0;
        while k < pairs.len()
            invariant
                k <= pairs.len(),
                labels_in_range(pairs@),
                fits(self.pattern),
                fits(new_pattern),
                new_pattern == symmetrize_bits(self.pattern, pairs@.subrange(0, k as int)),
            decreases pairs.len() - k,
        {
            let piece_a = pairs[k].0;
            let piece_b = pairs[k].1;
            let swap_pattern = ((piece_a.id ^ piece_b.id) as u128) * 0x1111_1111_1111_1111_1111;
            let mask_a = self.mask_of_u128(piece_a);
            let mask_b = self.mask_of_u128(piece_b);
            proof {
                let done = pairs@.subrange(0, k as int);
                let next = pairs@.subrange(0, k + 1);
                assert(next.drop_last() =~= done);
                assert(next.last() == pairs@[k as int]);
                let a = piece_a.id as u128;
                let b = piece_b.id as u128;
                assert((piece_a.id ^ piece_b.id) as u128 == a ^ b);
                lemma_swap_cells(new_pattern, self.pattern, a, b, 0);
            }
            new_pattern = new_pattern ^ ((mask_a | mask_b) & swap_pattern);
            k += 1;
        }
        proof {
            assert(pairs@.subrange(0, k as int) =~= pairs@);
            assert forall|i: u128| i < 20 implies #[trigger] cell(new_pattern, i) == relabel(
                cell(self.pattern, i),
                pairs@,
            ) by {
                lemma_symmetrize_cells(self.pattern, pairs@, i);
            }
        }
        Self { pattern: new_pattern }
    }

    /// Returns the mask of a piece: 15 in every cell that holds its label, 0 elsewhere.
    pub fn mask_of(&self, piece: Piece) -> (r: Self)
        requires
            piece.id <= 15,
        ensures
            r@ == mask_bits(self@, piece.id as u128),
            forall|i: u128|
                i < 20 ==> #[trigger] cell(r@, i) == (if cell(self@, i) == piece.id {
                    15u128
                } else {
                    0u128
                }),
    {
        proof {
            use_type_invariant(self);
            assert forall|i: u128| i < 20 implies #[trigger] cell(
                mask_bits(self.pattern, piece.id as u128),
                i,
            ) == (if cell(self.pattern, i) == piece.id {
                15u128
            } else {
                0u128
            }) by {
                lemma_mask_cells(self.pattern, piece.id as u128, i);
            }
        }
        Self { pattern: self.mask_of_u128(piece) }
    }

    fn mask_of_u128(&self, piece: Piece) -> (r: u128)
        requires
            piece.id <= 15,
        ensures
            r == mask_bits(self@, piece.id as u128),
            fits(r),
    {
        proof {
            use_type_invariant(self);
            lemma_mask_cells(self.pattern, piece.id as u128, 0);
        }
        let mut mask = self.pattern;
        mask ^= (piece.id as u128) * 0x1111_1111_1111_1111_1111;
        mask = ((mask >> 1) | mask) & 0x5555_5555_5555_5555_5555;
        mask = ((mask >> 2) | mask) & 0x1111_1111_1111_1111_1111;
        mask |= mask << 1;
        mask |= mask << 2;
        (!mask) & PAYLOAD_MASK
    }

    /// Mirrors one row: the image operation on an image that has only its bottom row.
    pub fn mirrored_u16(data: u16) -> (r: u16)
        ensures
            r as u128 == mirror_bits(data as u128),
    {
        proof {
            lemma_bottom_row(0, data as u128);
        }
        let mirrored = BitPattern::new(data as u128).mirrored().get_u128();
        mirrored as u16
    }

    /// Exchanges the labels of each pair within one row: the image operation on an image
    /// that has only its bottom row, cut down to that row again.
    pub fn symmetrized_u16(data: u16, pairs: &Vec<(Piece, Piece)>) -> (r: u16)
        requires
            labels_in_range(pairs@),
        ensures
            r as u128 == symmetrize_bits(data as u128, pairs@) & 0xffff,
    {
        proof {
            lemma_bottom_row(symmetrize_bits(data as u128, pairs@), data as u128);
        }
        let symmetrized = BitPattern::new(data as u128).symmetrized(pairs).get_u128();
        (symmetrized & 0xffff) as u16
    }

    /// Returns the mask of a piece within one row: the image operation on an image that
    /// has only its bottom row, cut down to that row again.
    pub fn mask_of_piece_u16(data: u16, piece: Piece) -> (r: u16)
        requires
            piece.id <= 15,
        ensures
            r as u128 == mask_bits(data as u128, piece.id as u128) & 0xffff,
    {
        proof {
            lemma_bottom_row(mask_bits(data as u128, piece.id as u128), data as u128);
        }
        let mask = BitPattern::new(data as u128).mask_of(piece).get_u128();
        (mask & 0xffff) as u16
    }

    /// Writes the pattern as its five rows in hexadecimal, joined by underscores, in square
    /// brackets.
    pub fn render(&self) -> (r: String)
        ensures
            r@ == image_text(self@),
    {
        let mut text = String::from_str("[");
        proof {
            reveal_strlit("[");
            reveal_strlit("]");
        }
        let mut r: u8 = 0;
        let ghost v = self@;
        while r < 5
            invariant
                r <= 5,
                v == self@,
                text@ == seq!['['] + rows_text(v, r as nat),
            decreases 5 - r,
        {
            let ghost before = text@;
            if r > 0 {
                text.append("_");
            }
            let ghost joined = text@;
            text.append(hex_digit(self.cell_at(4 * r)));
            text.append(hex_digit(self.cell_at(4 * r + 1)));
            text.append(hex_digit(self.cell_at(4 * r + 2)));
            text.append(hex_digit(self.cell_at(4 * r + 3)));
            proof {
                assert(text@ =~= joined + row_text(v, r as u128));
                if r == 0 {
                    assert(before =~= seq!['[']);
                    assert(rows_text(v, 1) == row_text(v, 0));
                } else {
                    reveal_strlit("_");
                    assert(joined =~= before + seq!['_']);
                    assert(rows_text(v, (r + 1) as nat) == rows_text(v, r as nat) + seq!['_']
                        + row_text(v, r as u128));
                }
                assert(text@ =~= seq!['['] + rows_text(v, (r + 1) as nat));
            }
            r += 1;
        }
        text.append("]");
        text
    }
}

impl core::ops::BitAnd for BitPattern {
    type Output = Self;

    /// The cells of both patterns, combined bit by bit with "and".
    fn bitand(self, rhs: Self) -> (r: Self)
        ensures
            r@ == self@ & rhs@,
    {
        proof {
            use_type_invariant(self);
            use_type_invariant(rhs);
            lemma_bitwise_cells(self.pattern, rhs.pattern, 0);
        }
        Self { pattern: self.pattern & rhs.pattern }
    }
}

impl vstd::std_specs::ops::BitAndSpecImpl for BitPattern {
    open spec fn obeys_bitand_spec() -> bool {
        true
    }

    open spec fn bitand_req(self, rhs: Self) -> bool {
        true
    }

    closed spec fn bitand_spec(self, rhs: Self) -> Self {
        BitPattern { pattern: self.pattern & rhs.pattern }
    }
}

impl core::ops::BitOr for BitPattern {
    type Output = Self;

    /// The cells of both patterns, combined bit by bit with "or".
    fn bitor(self, rhs: Self) -> (r: Self)
        ensures
            r@ == self@ | rhs@,
    {
        proof {
            use_type_invariant(self);
            use_type_invariant(rhs);
            lemma_bitwise_cells(self.pattern, rhs.pattern, 0);
        }
        Self { pattern: self.pattern | rhs.pattern }
    }
}

impl vstd::std_specs::ops::BitOrSpecImpl for BitPattern {
    open spec fn obeys_bitor_spec() -> bool {
        true
    }

    open spec fn bitor_req(self, rhs: Self) -> bool {
        true
    }

    closed spec fn bitor_spec(self, rhs: Self) -> Self {
        BitPattern { pattern: self.pattern | rhs.pattern }
    }
}

impl core::ops::BitXor for BitPattern {
    type Output = Self;

    /// The cells of both patterns, combined bit by bit with "exclusive or".
    fn bitxor(self, rhs: Self) -> (r: Self)
        ensures
            r@ == self@ ^ rhs@,
    {
        proof {
            use_type_invariant(self);
            use_type_invariant(rhs);
            lemma_bitwise_cells(self.pattern, rhs.pattern, 0);
        }
        Self { pattern: self.pattern ^ rhs.pattern }
    }
}

impl vstd::std_specs::ops::BitXorSpecImpl for BitPattern {
    open spec fn obeys_bitxor_spec() -> bool {
        true
    }

    open spec fn bitxor_req(self, rhs: Self) -> bool {
        true
    }

    closed spec fn bitxor_spec(self, rhs: Self) -> Self {
        BitPattern { pattern: self.pattern ^ rhs.pattern }
    }
}

impl core::ops::Not for BitPattern {
    type Output = Self;

    /// The pattern with every bit of its eighty flipped.
    fn not(self) -> (r: Self)
        ensures
            r@ == complement_bits(self@),
    {
        proof {
            use_type_invariant(self);
            lemma_bitwise_cells(self.pattern, self.pattern, 0);
        }
        Self { pattern: (!self.pattern) & PAYLOAD_MASK }
    }
}

impl vstd::std_specs::ops::NotSpecImpl for BitPattern {
    open spec fn obeys_not_spec() -> bool {
        true
    }

    open spec fn not_req(self) -> bool {
        true
    }

    closed spec fn not_spec(self) -> Self {
        BitPattern { pattern: (!self.pattern) & PAYLOAD_MASK }
    }
}

} // verus!
