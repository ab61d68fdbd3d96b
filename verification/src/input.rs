use vstd::prelude::*;
use vstd::string::StringExecFns;
use crate::bit_pattern::{is_matching, BitPattern};
use crate::board::Board;
use crate::cells::{fits, lemma_drop_lowest_cell, mask_bits, PAYLOAD_MASK};
use crate::census::count_cells;
use crate::hex::{digit_of, digit_value};
use crate::piece::Piece;
use crate::rule::{present_labels, symmetry_pairs, Rule};

verus! {

/// Why a puzzle was turned down.
#[derive(Debug)]
pub enum KlotskiError {
    Validation(String),
}

/// The shape of a piece that is not on the board.
pub const SHAPE_UNUSED: u128 = 0x0000_0000;

/// The shape of a piece of one cell.
pub const SHAPE_SMALL: u128 = 0x0000_000f;

/// The shape of a piece of two cells side by side.
pub const SHAPE_HORIZONTAL: u128 = 0x0000_00ff;

/// The shape of a piece of two cells one above the other.
pub const SHAPE_VERTICAL: u128 = 0x000f_000f;

/// The shape of the piece of two by two cells.
pub const SHAPE_LARGE: u128 = 0x00ff_00ff;

/// The text without the `0x` marks that it begins with.
pub open spec fn without_prefixes(text: Seq<char>) -> Seq<char>
    decreases text.len(),
{
    if text.len() >= 2 && text[0] == '0' && text[1] == 'x' {
        without_prefixes(text.subrange(2, text.len() as int))
    } else {
        text
    }
}

/// The text without its underscores.
pub open spec fn without_separators(text: Seq<char>) -> Seq<char>
    decreases text.len(),
{
    if text.len() == 0 {
        Seq::empty()
    } else if text.last() == '_' {
        without_separators(text.drop_last())
    } else {
        without_separators(text.drop_last()).push(text.last())
    }
}

/// The text without the plus sign that it may begin with.
pub open spec fn without_sign(text: Seq<char>) -> Seq<char> {
    if text.len() >= 1 && text[0] == '+' {
        text.drop_first()
    } else {
        text
    }
}

/// The number that the hexadecimal digits stand for, or `None` when one of the
/// characters is no hexadecimal digit.
pub open spec fn hex_number(digits: Seq<char>) -> Option<nat>
    decreases digits.len(),
{
    if digits.len() == 0 {
        Some(0)
    } else {
        match (hex_number(digits.drop_last()), digit_value(digits.last())) {
            (Some(n), Some(d)) => Some((16 * n + d) as nat),
            _ => None,
        }
    }
}

/// The image that a text stands for: after any `0x` marks at its beginning and without
/// its underscores, it has to be a hexadecimal number of at least one digit, with or
/// without a plus sign, that fits in eighty bits.
pub open spec fn parsed_image(text: Seq<char>) -> Option<u128> {
    let digits = without_sign(without_separators(without_prefixes(text)));
    if digits.len() == 0 {
        None
    } else {
        match hex_number(digits) {
            Some(n) => if n <= PAYLOAD_MASK {
                Some(n as u128)
            } else {
                None
            },
            None => None,
        }
    }
}

/// The image `mask` moved towards the last cell, by as many cells as the last cell is
/// empty, though by no more than `limit`.
pub open spec fn lowered(mask: u128, limit: nat) -> u128
    decreases limit,
{
    if limit == 0 || mask & 0xf != 0 {
        mask
    } else {
        lowered(mask >> 4, (limit - 1) as nat)
    }
}

/// The shape of the piece with this label on the image `v`: the cells that it covers,
/// moved so that the last of them lies in the last cell. A piece that is not on the
/// image has the empty shape.
pub open spec fn shape_of(v: u128, label: u128) -> u128 {
    lowered(mask_bits(v, label), 19)
}

/// Whether the shape is one that a piece other than the large one may have.
pub open spec fn is_regular_shape(shape: u128) -> bool {
    shape == SHAPE_UNUSED || shape == SHAPE_SMALL || shape == SHAPE_HORIZONTAL || shape
        == SHAPE_VERTICAL
}

/// Whether the pieces with the labels from 2 to `top` all have a regular shape.
pub open spec fn all_regular(v: u128, top: nat) -> bool {
    forall|label: u128| 2 <= label <= top ==> is_regular_shape(#[trigger] shape_of(v, label))
}

/// What can be wrong with the two texts that describe a puzzle.
pub enum Flaw {
    StartNotHex,
    StartEmptyCells,
    StartLargePiece,
    StartPieceShape,
    GoalNotHex,
    GoalEmptyCells,
    GoalShape,
}

/// The first thing that is wrong with the texts for the start board and the goal mask,
/// if anything is.
pub open spec fn first_flaw(start: Seq<char>, goal: Seq<char>) -> Option<Flaw> {
    match parsed_image(start) {
        None => Some(Flaw::StartNotHex),
        Some(v) => if count_cells(v, 0, 20) != 2 {
            Some(Flaw::StartEmptyCells)
        } else if shape_of(v, 1) != SHAPE_LARGE {
            Some(Flaw::StartLargePiece)
        } else if !all_regular(v, 15) {
            Some(Flaw::StartPieceShape)
        } else {
            match parsed_image(goal) {
                None => Some(Flaw::GoalNotHex),
                Some(g) => if count_cells(g, 0, 20) != 16 {
                    Some(Flaw::GoalEmptyCells)
                } else if shape_of(g, 15) != SHAPE_LARGE {
                    Some(Flaw::GoalShape)
                } else {
                    None
                },
            }
        },
    }
}

/// What is said about a flaw.
pub open spec fn flaw_text(flaw: Flaw) -> Seq<char> {
    match flaw {
        Flaw::StartNotHex => "START_BOARD must be a 20 hex digit number."@,
        Flaw::StartEmptyCells => "START_BOARD must have only two empty spaces."@,
        Flaw::StartLargePiece => "START_BOARD must have the #1 large piece."@,
        Flaw::StartPieceShape => "START_BOARD contains a piece that is not of a legal shape."@,
        Flaw::GoalNotHex => "GOAL_MASK must be a 20 hex digit number."@,
        Flaw::GoalEmptyCells => "GOAL_MASK must be a mask that indicates the goal position."@,
        Flaw::GoalShape => "GOAL_MASK shape is incorrect."@,
    }
}

impl KlotskiError {
    fn new(msg: &str) -> (r: Self)
        ensures
            r matches KlotskiError::Validation(text) && text@ == msg@,
    {
        KlotskiError::Validation(String::from_str(msg))
    }

    /// The message of the error, as a sequence of characters.
    pub open spec fn spec_message(self) -> Seq<char> {
        match self {
            KlotskiError::Validation(text) => text@,
        }
    }

    /// Returns the message of the error.
    pub fn message(&self) -> (r: String)
        ensures
            r@ == self.spec_message(),
    {
        match self {
            KlotskiError::Validation(text) => text.clone(),
        }
    }
}

/// Returns the characters of a text.
fn chars_of(value: &str) -> (r: Vec<char>)
    ensures
        r@ == value@,
{
    let mut chars: Vec<char> = Vec::new();
    for c in it: value.chars()
        invariant
            it.seq() == value@,
            chars@ == it.seq().take(it.index()),
    {
        chars.push(c);
        assert(it.seq().take(it.index() + 1) =~= it.seq().take(it.index()).push(c));
    }
    assert(chars@ =~= value@);
    chars
}

/// Parses a text that stands for an image: a hexadecimal number of up to eighty bits, which
/// may begin with `0x` and may hold underscores anywhere after that.
pub fn parse_20_hex_digits(value: &str) -> (r: Option<BitPattern>)
    ensures
        match r {
            Some(pattern) => parsed_image(value@) == Some(pattern@),
            None => parsed_image(value@) is None,
        },
{
    let chars = chars_of(value);
    let mut start: usize = 0;
    assert(chars@.subrange(0, chars@.len() as int) =~= chars@);
    while chars.len() - start >= 2 && chars[start] == '0' && chars[start + 1] == 'x'
        invariant
            start <= chars@.len(),
            without_prefixes(chars@) == without_prefixes(
                chars@.subrange(start as int, chars@.len() as int),
            ),
        decreases chars@.len() - start,
    {
        let ghost tail = chars@.subrange(start as int, chars@.len() as int);
        assert(tail[0] == chars@[start as int] && tail[1] == chars@[start + 1]);
        assert(tail.subrange(2, tail.len() as int) =~= chars@.subrange(
            start + 2,
            chars@.len() as int,
        ));
        start += 2;
    }
    let ghost rest = chars@.subrange(start as int, chars@.len() as int);
    proof {
        if rest.len() >= 2 {
            assert(rest[0] == chars@[start as int] && rest[1] == chars@[start + 1]);
        }
        assert(without_prefixes(chars@) == rest);
    }
    let mut i: usize = start;
    let mut seen: usize = 0;
    let mut signed = false;
    let mut good = true;
    let mut small = true;
    let mut value_so_far: u128 = 0;
    while i < chars.len()
        invariant
            start <= i <= chars@.len(),
            rest == chars@.subrange(start as int, chars@.len() as int),
            seen == without_separators(rest.subrange(0, i - start)).len(),
            seen <= i - start,
            signed == (seen >= 1 && without_separators(rest.subrange(0, i - start))[0] == '+'),
            good == (hex_number(without_sign(without_separators(rest.subrange(0, i - start))))
                is Some),
            good ==> small == (hex_number(
                without_sign(without_separators(rest.subrange(0, i - start))),
            )->0 <= PAYLOAD_MASK),
            good && small ==> value_so_far == hex_number(
                without_sign(without_separators(rest.subrange(0, i - start))),
            )->0,
        decreases chars@.len() - i,
    {
        let c = chars[i];
        let ghost before = rest.subrange(0, i - start);
        let ghost after = rest.subrange(0, i + 1 - start);
        let ghost kept = without_separators(before);
        proof {
            assert(after.drop_last() =~= before);
            assert(after.last() == c);
        }
        if c != '_' {
            proof {
                assert(without_separators(after) == kept.push(c));
            }
            if seen == 0 && c == '+' {
                signed = true;
                proof {
                    assert(without_sign(kept.push(c)) =~= Seq::<char>::empty());
                    assert(without_sign(kept) =~= Seq::<char>::empty());
                }
            } else {
                proof {
                    let digits = without_sign(kept);
                    let longer = without_sign(kept.push(c));
                    assert(longer =~= digits.push(c));
                    assert(longer.drop_last() =~= digits);
                    assert(longer.last() == c);
                }
                match digit_of(c) {
                    Some(d) => {
                        if good && small {
                            value_so_far = 16 * value_so_far + d as u128;
                            small = value_so_far <= PAYLOAD_MASK;
                        }
                    },
                    None => {
                        good = false;
                    },
                }
            }
            seen += 1;
        }
        i += 1;
    }
    proof {
        assert(rest.subrange(0, i - start) =~= rest);
    }
    let digits_seen = if signed {
        seen - 1
    } else {
        seen
    };
    if digits_seen == 0 || !good || !small {
        None
    } else {
        Some(BitPattern::new(value_so_far))
    }
}

/// Returns the shape of a piece on an image: the cells that the piece covers, moved so
/// that the last of them lies in the last cell.
pub fn piece_shape(bit_pattern: &BitPattern, piece_id: u8) -> (r: BitPattern)
    requires
        piece_id <= 15,
    ensures
        r@ == shape_of(bit_pattern@, piece_id as u128),
{
    let piece_mask: u128 = bit_pattern.mask_of(Piece::new(piece_id)).get_u128();
    let mut shape = piece_mask;
    let mut moved: u8 = 0;
    while moved < 19 && shape & 0xf == 0
        invariant
            moved <= 19,
            fits(shape),
            lowered(piece_mask, 19) == lowered(shape, (19 - moved) as nat),
        decreases 19 - moved,
    {
        proof {
            lemma_drop_lowest_cell(shape);
        }
        shape = shape >> 4;
        moved += 1;
    }
    BitPattern::new(shape)
}

/// Checks whether a shape is one that a piece other than the large one may have: no
/// cell, one cell, two cells side by side, or two cells one above the other.
pub fn is_valid_regular_piece_shapes(shape: &BitPattern) -> (r: bool)
    ensures
        r == is_regular_shape(shape@),
{
    let v = shape.get_u128();
    v == SHAPE_UNUSED || v == SHAPE_SMALL || v == SHAPE_HORIZONTAL || v == SHAPE_VERTICAL
}

/// Counts the empty cells of an image.
pub fn count_empty_spaces(bit_pattern: &BitPattern) -> (count: usize)
    ensures
        count == count_cells(bit_pattern@, 0, 20),
        count <= 20,
{
    let mut count: usize = 0;
    let mut index: u8 = 0;
    while index < 20
        invariant
            index <= 20,
            count == count_cells(bit_pattern@, 0, index as nat),
            count <= index,
        decreases 20 - index,
    {
        if bit_pattern.cell_at(index) == 0 {
            count += 1;
        }
        index += 1;
    }
    count
}

/// Checks that every piece with a label from 2 to 15 has a regular shape.
fn has_regular_pieces(image: &BitPattern) -> (r: bool)
    ensures
        r == all_regular(image@, 15),
{
    let mut id: u8 = 2;
    while id <= 15
        invariant
            2 <= id <= 16,
            all_regular(image@, (id - 1) as nat),
        decreases 16 - id,
    {
        let shape = piece_shape(image, id);
        if !is_valid_regular_piece_shapes(&shape) {
            assert(!is_regular_shape(shape_of(image@, id as u128)));
            return false;
        }
        id += 1;
    }
    true
}

/// Makes the rule of a puzzle from the texts that give its start board and its goal mask,
/// or says what is wrong with them.
///
/// The start board has to be an image with exactly two empty cells, in which the piece
/// with label 1 is the large piece and every other piece has a regular shape. The goal
/// mask has to be an image with exactly sixteen empty cells whose other cells hold 15
/// and have the shape of the large piece.
pub fn parse_args_to_rule(start_image: &str, goal_mask: &str) -> (r: Result<Rule, KlotskiError>)
    ensures
        match r {
            Ok(rule) => {
                &&& first_flaw(start_image@, goal_mask@) is None
                &&& Some(rule.start.image@) == parsed_image(start_image@)
                &&& Some(rule.goal_mask@) == parsed_image(goal_mask@)
                &&& rule.pieces@ == present_labels(rule.start.image@, 15)
                &&& rule.pairs@ == symmetry_pairs(rule.start.image@, rule.goal_mask@, rule.pieces@)
                &&& rule.is_valid()
                &&& is_matching(rule.pairs@)
            },
            Err(error) => first_flaw(start_image@, goal_mask@) matches Some(flaw)
                && error.spec_message() == flaw_text(flaw),
        },
{
    let start_image = match parse_20_hex_digits(start_image) {
        Some(image) => image,
        None => {
            return Err(KlotskiError::new("START_BOARD must be a 20 hex digit number."));
        },
    };
    if count_empty_spaces(&start_image) != 2 {
        return Err(KlotskiError::new("START_BOARD must have only two empty spaces."));
    }
    if piece_shape(&start_image, 1).get_u128() != SHAPE_LARGE {
        return Err(KlotskiError::new("START_BOARD must have the #1 large piece."));
    }
    if !has_regular_pieces(&start_image) {
        return Err(
            KlotskiError::new("START_BOARD contains a piece that is not of a legal shape."),
        );
    }
    let goal_mask = match parse_20_hex_digits(goal_mask) {
        Some(image) => image,
        None => {
            return Err(KlotskiError::new("GOAL_MASK must be a 20 hex digit number."));
        },
    };
    if count_empty_spaces(&goal_mask) != 16 {
        return Err(KlotskiError::new("GOAL_MASK must be a mask that indicates the goal position."));
    }
    if piece_shape(&goal_mask, 0xf).get_u128() != SHAPE_LARGE {
        return Err(KlotskiError::new("GOAL_MASK shape is incorrect."));
    }
    let rule = Rule::new(&Board::from_bitpattern(start_image), &goal_mask);
    Ok(rule)
}

} // verus!
