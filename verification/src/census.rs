use vstd::prelude::*;
use crate::cells::{
    cell, fits, lemma_cell_bound, lemma_cells_from_low_end, lemma_mask_cells, mask_bits,
};

verus! {

/// The number of cells among the first `n`, in reading order, that hold `label`.
pub open spec fn count_cells(v: u128, label: u128, n: nat) -> nat
    decreases n,
{
    if n == 0 {
        0
    } else {
        count_cells(v, label, (n - 1) as nat) + if cell(v, (n - 1) as u128) == label {
            1nat
        } else {
            0nat
        }
    }
}

/// The number of bits that are set in `v`.
pub open spec fn popcount(v: u128) -> nat
    decreases v,
{
    if v == 0 {
        0
    } else {
        (v % 2) as nat + popcount((v / 2) as u128)
    }
}

/// The number of cells that the pieces with the labels from 1 to `top` cover, each piece
/// counted by the bits of its mask, four to a cell.
pub open spec fn covered_cells(v: u128, top: nat) -> nat
    decreases top,
{
    if top == 0 {
        0
    } else {
        covered_cells(v, (top - 1) as nat) + popcount(mask_bits(v, top as u128)) / 4
    }
}

/// The number of cells among the first `n` that hold a label from 0 to `top`.
pub open spec fn count_up_to(v: u128, top: nat, n: nat) -> nat
    decreases top,
{
    if top == 0 {
        count_cells(v, 0, n)
    } else {
        count_up_to(v, (top - 1) as nat, n) + count_cells(v, top as u128, n)
    }
}

/// The bits of a number are its lowest bit and the bits of its upper half.
proof fn lemma_popcount_lowest_bit(v: u128)
    ensures
        popcount(v) == v % 2 + popcount((v / 2) as u128),
{
    reveal_with_fuel(popcount, 2);
}

/// The bits of a number are those of its lowest four bits and those of the rest.
proof fn lemma_popcount_lowest_cell(v: u128)
    ensures
        popcount(v) == popcount((v % 16) as u128) + popcount((v / 16) as u128),
        popcount(0) == 0,
        popcount(15) == 4,
{
    let v1 = (v / 2) as u128;
    let v2 = (v1 / 2) as u128;
    let v3 = (v2 / 2) as u128;
    let v4 = (v3 / 2) as u128;
    let low = (v % 16) as u128;
    let l1 = (low / 2) as u128;
    let l2 = (l1 / 2) as u128;
    let l3 = (l2 / 2) as u128;
    let l4 = (l3 / 2) as u128;
    assert(v4 == v / 16);
    assert(l4 == 0);
    assert(v % 2 == low % 2);
    assert(v1 % 2 == l1 % 2);
    assert(v2 % 2 == l2 % 2);
    assert(v3 % 2 == l3 % 2);
    lemma_popcount_lowest_bit(v);
    lemma_popcount_lowest_bit(v1);
    lemma_popcount_lowest_bit(v2);
    lemma_popcount_lowest_bit(v3);
    lemma_popcount_lowest_bit(low);
    lemma_popcount_lowest_bit(l1);
    lemma_popcount_lowest_bit(l2);
    lemma_popcount_lowest_bit(l3);
    lemma_popcount_lowest_bit(15);
    lemma_popcount_lowest_bit(7);
    lemma_popcount_lowest_bit(3);
    lemma_popcount_lowest_bit(1);
    assert(popcount(0) == 0);
}

/// In an image whose cells hold 0 or 15 only, four bits are set for each cell that holds
/// 15.
proof fn lemma_popcount_of_mask(mask: u128, n: nat)
    requires
        fits(mask),
        n <= 20,
        forall|i: u128| i < 20 ==> #[trigger] cell(mask, i) == 0 || cell(mask, i) == 15,
    ensures
        popcount(mask >> ((4 * (20 - n)) as u128)) == 4 * count_cells(mask, 15, n),
    decreases n,
{
    if n == 0 {
        lemma_cells_from_low_end(mask, 0);
        lemma_popcount_lowest_cell(0);
    } else {
        let k = (20 - n) as u128;
        lemma_popcount_of_mask(mask, (n - 1) as nat);
        lemma_cells_from_low_end(mask, k);
        lemma_popcount_lowest_cell(mask >> ((4 * k) as u128));
        assert(cell(mask, (19 - k) as u128) == 0 || cell(mask, (19 - k) as u128) == 15);
    }
}

/// The mask of a label holds 15 in as many cells as the image holds the label.
proof fn lemma_count_of_mask(v: u128, label: u128, n: nat)
    requires
        fits(v),
        label <= 15,
        n <= 20,
    ensures
        count_cells(mask_bits(v, label), 15, n) == count_cells(v, label, n),
    decreases n,
{
    if n > 0 {
        lemma_count_of_mask(v, label, (n - 1) as nat);
        lemma_mask_cells(v, label, (n - 1) as u128);
    }
}

/// A piece covers as many cells as a quarter of the bits of its mask.
pub proof fn lemma_popcount_counts_cells(v: u128, label: u128)
    requires
        fits(v),
        label <= 15,
    ensures
        popcount(mask_bits(v, label)) == 4 * count_cells(v, label, 20),
{
    let mask = mask_bits(v, label);
    assert forall|i: u128| i < 20 implies #[trigger] cell(mask, i) == 0 || cell(mask, i) == 15 by {
        lemma_mask_cells(v, label, i);
    }
    lemma_mask_cells(v, label, 0);
    lemma_popcount_of_mask(mask, 20);
    lemma_cells_from_low_end(mask, 0);
    lemma_count_of_mask(v, label, 20);
}

/// One more cell adds one to the count of the cells that hold a label up to `top`, where
/// its label is one of them.
proof fn lemma_count_up_to_step(v: u128, top: nat, n: nat)
    requires
        n >= 1,
        top <= 15,
    ensures
        count_up_to(v, top, n) == count_up_to(v, top, (n - 1) as nat) + if cell(
            v,
            (n - 1) as u128,
        ) <= top {
            1nat
        } else {
            0nat
        },
    decreases top,
{
    if top > 0 {
        lemma_count_up_to_step(v, (top - 1) as nat, n);
    }
}

/// Every one of the first `n` cells holds a label from 0 to 15.
proof fn lemma_count_up_to_all(v: u128, n: nat)
    requires
        n <= 20,
    ensures
        count_up_to(v, 15, n) == n,
    decreases n,
{
    if n == 0 {
        reveal_with_fuel(count_up_to, 16);
    } else {
        lemma_count_up_to_all(v, (n - 1) as nat);
        lemma_count_up_to_step(v, 15, n);
        lemma_cell_bound(v, (n - 1) as u128);
    }
}

/// The cells that the pieces up to `top` cover and the empty cells are the cells that
/// hold a label up to `top`.
proof fn lemma_covered_is_counted(v: u128, top: nat)
    requires
        fits(v),
        top <= 15,
    ensures
        covered_cells(v, top) + count_cells(v, 0, 20) == count_up_to(v, top, 20),
    decreases top,
{
    if top > 0 {
        lemma_covered_is_counted(v, (top - 1) as nat);
        lemma_popcount_counts_cells(v, top as u128);
    }
}

/// The cells of the pieces and the empty cells together are the twenty cells of the
/// board: every cell is empty or belongs to exactly one piece.
pub proof fn lemma_cells_add_up(v: u128)
    requires
        fits(v),
    ensures
        covered_cells(v, 15) + count_cells(v, 0, 20) == 20,
{
    lemma_covered_is_counted(v, 15);
    lemma_count_up_to_all(v, 20);
}

} // verus!
