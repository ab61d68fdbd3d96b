use vstd::prelude::*;

verus! {

/// The eighty bits that hold a board image: twenty cells of four bits.
pub const PAYLOAD_MASK: u128 = 0xffff_ffff_ffff_ffff_ffff;

/// Whether `v` has no bit set above the eighty payload bits.
pub open spec fn fits(v: u128) -> bool {
    v <= PAYLOAD_MASK
}

/// The label held in cell `i` of the image `v`. Cells are counted in reading order:
/// cell 0 is the top-left one, cell 3 the top-right one, cell 19 the bottom-right one.
pub open spec fn cell(v: u128, i: u128) -> u128 {
    (v >> ((4 * (19 - i)) as u128)) & 0xf
}

/// The image that holds `label` in every cell.
pub open spec fn replicate(label: u128) -> u128 {
    (label * 0x1111_1111_1111_1111_1111) as u128
}

/// The image `v` slid by one cell. `code` 0 slides it up, 1 down, 2 left, 3 right.
pub open spec fn shift_bits(v: u128, code: u128) -> u128 {
    if code == 0 {
        (v << 16) & PAYLOAD_MASK
    } else if code == 1 {
        (v >> 16) & PAYLOAD_MASK
    } else if code == 2 {
        (v << 4) & 0xfff0_fff0_fff0_fff0_fff0
    } else {
        (v >> 4) & 0x0fff_0fff_0fff_0fff_0fff
    }
}

/// The cells along the edge that a slide with this code runs into: the top row for 0,
/// the bottom row for 1, the left column for 2, the right column for 3.
pub open spec fn edge_bits(code: u128) -> u128 {
    if code == 0 {
        0xffff_0000_0000_0000_0000
    } else if code == 1 {
        0x0000_0000_0000_0000_ffff
    } else if code == 2 {
        0xf000_f000_f000_f000_f000
    } else {
        0x000f_000f_000f_000f_000f
    }
}

/// The code of the opposite slide.
pub open spec fn opposite(code: u128) -> u128 {
    if code == 0 {
        1
    } else if code == 1 {
        0
    } else if code == 2 {
        3
    } else {
        2
    }
}

/// What cell `i` holds after the image `v` was slid: the label of the cell that lay one
/// step behind it, or nothing where the slide brought in a fresh cell.
pub open spec fn shifted_cell(v: u128, code: u128, i: u128) -> u128 {
    if code == 0 {
        if i < 16 {
            cell(v, (i + 4) as u128)
        } else {
            0
        }
    } else if code == 1 {
        if i >= 4 {
            cell(v, (i - 4) as u128)
        } else {
            0
        }
    } else if code == 2 {
        if i % 4 != 3 {
            cell(v, (i + 1) as u128)
        } else {
            0
        }
    } else {
        if i % 4 != 0 {
            cell(v, (i - 1) as u128)
        } else {
            0
        }
    }
}

/// The image `v` with each row read from right to left.
pub open spec fn mirror_bits(v: u128) -> u128 {
    (v << 12) & 0xf000_f000_f000_f000_f000 | (v << 4) & 0x0f00_0f00_0f00_0f00_0f00 | (v >> 4)
        & 0x00f0_00f0_00f0_00f0_00f0 | (v >> 12) & 0x000f_000f_000f_000f_000f
}

/// The cell that the mirror exchanges with cell `i`: same row, columns counted from the
/// other side.
pub open spec fn mirrored_index(i: u128) -> u128 {
    ((i / 4) * 4 + (3 - i % 4)) as u128
}

/// The image that holds 15 in each cell where `v` holds `label`, and 0 elsewhere.
pub open spec fn mask_bits(v: u128, label: u128) -> u128 {
    let differs = v ^ replicate(label);
    let pairs = ((differs >> 1) | differs) & 0x5555_5555_5555_5555_5555;
    let any = ((pairs >> 2) | pairs) & 0x1111_1111_1111_1111_1111;
    let half = any | (any << 1);
    let full = half | (half << 2);
    (!full) & PAYLOAD_MASK
}

/// One exchange of two labels: `acc` with `a ^ b` folded into each cell where `v` holds
/// `a` or `b`.
pub open spec fn swap_bits(acc: u128, v: u128, a: u128, b: u128) -> u128 {
    acc ^ ((mask_bits(v, a) | mask_bits(v, b)) & replicate(a ^ b))
}

/// Row `r` of the image, as a number below 65536; row 0 is the top row.
pub open spec fn row(v: u128, r: u128) -> u128 {
    (v >> ((16 * (4 - r)) as u128)) & 0xffff
}

/// The image with every bit of the payload flipped.
pub open spec fn complement_bits(v: u128) -> u128 {
    (!v) & PAYLOAD_MASK
}

/// A label never exceeds 15.
pub proof fn lemma_cell_bound(v: u128, i: u128)
    by (bit_vector)
    ensures
        cell(v, i) <= 15,
{
}

/// An image is the sum of its twenty cells, each at its place.
pub proof fn lemma_cells_compose(v: u128)
    by (bit_vector)
    requires
        fits(v),
    ensures
        v == (cell(v, 0) << 76) | (cell(v, 1) << 72) | (cell(v, 2) << 68) | (cell(v, 3) << 64) | (
        cell(v, 4) << 60) | (cell(v, 5) << 56) | (cell(v, 6) << 52) | (cell(v, 7) << 48) | (cell(
            v,
            8,
        ) << 44) | (cell(v, 9) << 40) | (cell(v, 10) << 36) | (cell(v, 11) << 32) | (cell(v, 12)
            << 28) | (cell(v, 13) << 24) | (cell(v, 14) << 20) | (cell(v, 15) << 16) | (cell(v, 16)
            << 12) | (cell(v, 17) << 8) | (cell(v, 18) << 4) | cell(v, 19),
{
}

/// Two images that agree in every cell are the same image.
pub proof fn lemma_cells_determine(a: u128, b: u128)
    requires
        fits(a),
        fits(b),
        forall|i: u128| i < 20 ==> cell(a, i) == cell(b, i),
    ensures
        a == b,
{
    lemma_cells_compose(a);
    lemma_cells_compose(b);
    assert(cell(a, 0) == cell(b, 0));
    assert(cell(a, 1) == cell(b, 1));
    assert(cell(a, 2) == cell(b, 2));
    assert(cell(a, 3) == cell(b, 3));
    assert(cell(a, 4) == cell(b, 4));
    assert(cell(a, 5) == cell(b, 5));
    assert(cell(a, 6) == cell(b, 6));
    assert(cell(a, 7) == cell(b, 7));
    assert(cell(a, 8) == cell(b, 8));
    assert(cell(a, 9) == cell(b, 9));
    assert(cell(a, 10) == cell(b, 10));
    assert(cell(a, 11) == cell(b, 11));
    assert(cell(a, 12) == cell(b, 12));
    assert(cell(a, 13) == cell(b, 13));
    assert(cell(a, 14) == cell(b, 14));
    assert(cell(a, 15) == cell(b, 15));
    assert(cell(a, 16) == cell(b, 16));
    assert(cell(a, 17) == cell(b, 17));
    assert(cell(a, 18) == cell(b, 18));
    assert(cell(a, 19) == cell(b, 19));
}

/// The rows of an image are its five groups of sixteen bits, and each row holds four cells.
pub proof fn lemma_rows(v: u128, r: u128)
    by (bit_vector)
    requires
        fits(v),
        r < 5,
    ensures
        row(v, 4) == v & 0xffff,
        row(v, r) <= 0xffff,
        v == (row(v, 0) << 64) | (row(v, 1) << 48) | (row(v, 2) << 32) | (row(v, 3) << 16) | row(
            v,
            4,
        ),
        cell(v, (4 * r) as u128) == (row(v, r) >> 12) & 0xf,
        cell(v, (4 * r + 1) as u128) == (row(v, r) >> 8) & 0xf,
        cell(v, (4 * r + 2) as u128) == (row(v, r) >> 4) & 0xf,
        cell(v, (4 * r + 3) as u128) == row(v, r) & 0xf,
{
}

/// Five rows put one above the other make an image with exactly those rows.
pub proof fn lemma_rows_compose(a: u128, b: u128, c: u128, d: u128, e: u128)
    by (bit_vector)
    requires
        a <= 0xffff,
        b <= 0xffff,
        c <= 0xffff,
        d <= 0xffff,
        e <= 0xffff,
    ensures
        ({
            let v = (a << 64) | (b << 48) | (c << 32) | (d << 16) | e;
            &&& fits(v)
            &&& row(v, 0) == a
            &&& row(v, 1) == b
            &&& row(v, 2) == c
            &&& row(v, 3) == d
            &&& row(v, 4) == e
        }),
{
}

/// Sliding an image moves every label one cell over and clears the cells that the slide
/// brings in.
pub proof fn lemma_shift_cells(v: u128, code: u128, i: u128)
    by (bit_vector)
    requires
        fits(v),
        code < 4,
        i < 20,
    ensures
        cell(shift_bits(v, code), i) == shifted_cell(v, code, i),
        fits(shift_bits(v, code)),
{
}

/// Mirroring exchanges the cells of each row end for end.
pub proof fn lemma_mirror_cells(v: u128, i: u128)
    by (bit_vector)
    requires
        fits(v),
        i < 20,
    ensures
        cell(mirror_bits(v), i) == cell(v, mirrored_index(i)),
        mirrored_index(i) < 20,
        fits(mirror_bits(v)),
{
}

/// The mask of a label marks exactly the cells that hold it.
pub proof fn lemma_mask_cells(v: u128, label: u128, i: u128)
    by (bit_vector)
    requires
        fits(v),
        label <= 15,
        i < 20,
    ensures
        cell(mask_bits(v, label), i) == (if cell(v, i) == label {
            15u128
        } else {
            0u128
        }),
        fits(mask_bits(v, label)),
{
}

/// One exchange touches only the cells that hold one of the two labels.
pub proof fn lemma_swap_cells(acc: u128, v: u128, a: u128, b: u128, i: u128)
    by (bit_vector)
    requires
        fits(acc),
        fits(v),
        a <= 15,
        b <= 15,
        i < 20,
    ensures
        cell(swap_bits(acc, v, a, b), i) == (if cell(v, i) == a || cell(v, i) == b {
            cell(acc, i) ^ a ^ b
        } else {
            cell(acc, i)
        }),
        fits(swap_bits(acc, v, a, b)),
{
}

/// The bitwise operations work cell by cell and stay within the payload.
pub proof fn lemma_bitwise_cells(a: u128, b: u128, i: u128)
    by (bit_vector)
    requires
        fits(a),
        fits(b),
        i < 20,
    ensures
        cell(a & b, i) == cell(a, i) & cell(b, i),
        cell(a | b, i) == cell(a, i) | cell(b, i),
        cell(a ^ b, i) == cell(a, i) ^ cell(b, i),
        cell(complement_bits(a), i) == 15 - cell(a, i),
        fits(a & b),
        fits(a | b),
        fits(a ^ b),
        fits(complement_bits(a)),
{
}

/// Mirroring twice gives the image back.
pub proof fn lemma_mirror_twice(v: u128)
    by (bit_vector)
    requires
        fits(v),
    ensures
        mirror_bits(mirror_bits(v)) == v,
{
}

/// An image that has nothing along the edge it slides into loses nothing by the slide:
/// sliding it back restores it.
pub proof fn lemma_shift_round_trip(v: u128, code: u128)
    by (bit_vector)
    requires
        fits(v),
        code < 4,
        v & edge_bits(code) == 0,
    ensures
        shift_bits(shift_bits(v, code), opposite(code)) == v,
{
}

/// The masks of two different labels share no cell, so a label that is on the board has
/// a mask of its own.
pub proof fn lemma_masks_disjoint(v: u128, a: u128, b: u128)
    by (bit_vector)
    requires
        fits(v),
        a <= 15,
        b <= 15,
        a != b,
    ensures
        mask_bits(v, a) & mask_bits(v, b) == 0,
        mask_bits(v, a) != 0 ==> mask_bits(v, a) != mask_bits(v, b),
{
}

/// Folding both labels of a pair into one of them leaves the other.
pub proof fn lemma_fold_exchanges(a: u128, b: u128)
    by (bit_vector)
    ensures
        a ^ a ^ b == b,
        b ^ a ^ b == a,
{
}

/// An image from which the lowest cell was dropped still fits, and its lowest cell is the
/// one that stood before the last.
pub proof fn lemma_drop_lowest_cell(v: u128)
    by (bit_vector)
    requires
        fits(v),
    ensures
        fits(v >> 4),
        v & 0xf == cell(v, 19),
{
}

/// An image that has only its bottom row is as small as a row, and so is its mirror
/// image; and any image cut down to its bottom row is as small as a row.
pub proof fn lemma_bottom_row(v: u128, single: u128)
    by (bit_vector)
    requires
        single <= 0xffff,
    ensures
        v & 0xffff <= 0xffff,
        mirror_bits(single) <= 0xffff,
        fits(single),
{
}

/// The cells of an image can be read off one by one from its low end: what is left after
/// `k` cells were dropped has cell `19 - k` as its lowest, and dropping that one too leaves
/// what is left after `k + 1` cells.
pub proof fn lemma_cells_from_low_end(v: u128, k: u128)
    by (bit_vector)
    requires
        fits(v),
        k < 20,
    ensures
        (v >> (4 * k) as u128) % 16 == cell(v, (19 - k) as u128),
        (v >> (4 * k) as u128) / 16 == v >> (4 * (k + 1)) as u128,
        v >> 80 == 0,
        v >> 0 == v,
{
}

} // verus!
