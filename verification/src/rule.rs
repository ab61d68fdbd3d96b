use vstd::prelude::*;
use crate::bit_pattern::{is_matching, labels_in_range, BitPattern};
use crate::board::Board;
use crate::cells::{
    fits, lemma_mask_cells, lemma_masks_disjoint, lemma_mirror_twice, mask_bits, mirror_bits,
};
use crate::piece::Piece;

verus! {

/// The definition of one puzzle: where it starts, which pieces it has, which pieces change
/// places when the start is mirrored, and where the large piece has to arrive.
#[derive(Debug)]
pub struct Rule {
    pub start: Board,
    pub pieces: Vec<Piece>,
    pub pairs: Vec<(Piece, Piece)>,
    pub goal_mask: BitPattern,
}

/// The pieces with a label from 1 to `n` that stand on the image `v`, in ascending order.
pub open spec fn present_labels(v: u128, n: nat) -> Seq<Piece>
    decreases n,
{
    if n == 0 {
        Seq::empty()
    } else {
        let rest = present_labels(v, (n - 1) as nat);
        if mask_bits(v, n as u128) != 0 {
            rest.push(Piece { id: n as u8 })
        } else {
            rest
        }
    }
}

/// Whether `q` covers on `v` exactly the cells that are the mirror image of those of `p`.
pub open spec fn is_mirror_of(v: u128, p: Piece, q: Piece) -> bool {
    mask_bits(v, q.id as u128) == mirror_bits(mask_bits(v, p.id as u128))
}

/// The first of the candidates that is the mirror image of `p`, if there is one.
pub open spec fn partner_in(v: u128, p: Piece, candidates: Seq<Piece>) -> Option<Piece>
    decreases candidates.len(),
{
    if candidates.len() == 0 {
        None
    } else if is_mirror_of(v, p, candidates[0]) {
        Some(candidates[0])
    } else {
        partner_in(v, p, candidates.drop_first())
    }
}

/// Whether every piece has its mirror image among the pieces.
pub open spec fn all_have_partners(v: u128, pieces: Seq<Piece>) -> bool {
    forall|k: int| 0 <= k < pieces.len() ==> partner_in(v, #[trigger] pieces[k], pieces) is Some
}

/// The pairs made of one of the first `n` pieces and its mirror image, the smaller label
/// first, each pair once.
pub open spec fn pairs_among(v: u128, pieces: Seq<Piece>, n: nat) -> Seq<(Piece, Piece)>
    decreases n,
{
    if n == 0 {
        Seq::empty()
    } else {
        let rest = pairs_among(v, pieces, (n - 1) as nat);
        let p = pieces[n - 1];
        match partner_in(v, p, pieces) {
            Some(q) => if p.id < q.id {
                rest.push((p, q))
            } else {
                rest
            },
            None => rest,
        }
    }
}

/// The pairs of pieces that change places when the board is mirrored. There are none
/// unless the goal is its own mirror image and every piece has a mirror image.
pub open spec fn symmetry_pairs(v: u128, goal: u128, pieces: Seq<Piece>) -> Seq<(Piece, Piece)> {
    if goal == mirror_bits(goal) && all_have_partners(v, pieces) {
        pairs_among(v, pieces, pieces.len())
    } else {
        Seq::empty()
    }
}

/// Whether the pieces are distinct pieces of the image `v`, in ascending order.
pub open spec fn are_pieces_of(v: u128, pieces: Seq<Piece>) -> bool {
    &&& forall|k: int|
        0 <= k < pieces.len() ==> (#[trigger] pieces[k]).is_label() && mask_bits(
            v,
            pieces[k].id as u128,
        ) != 0
    &&& forall|j: int, k: int|
        0 <= j < k < pieces.len() ==> (#[trigger] pieces[j]).id < (#[trigger] pieces[k]).id
}

/// The present labels up to `n` are pieces of the image, none of them above `n`.
pub proof fn lemma_present_labels(v: u128, n: nat)
    requires
        n <= 15,
    ensures
        are_pieces_of(v, present_labels(v, n)),
        forall|k: int|
            0 <= k < present_labels(v, n).len() ==> (#[trigger] present_labels(v, n)[k]).id <= n,
    decreases n,
{
    if n > 0 {
        lemma_present_labels(v, (n - 1) as nat);
    }
}

/// No piece that stands on the image is left out of the present labels.
pub proof fn lemma_present_labels_complete(v: u128, n: nat, label: u8)
    requires
        n <= 15,
        1 <= label <= n,
        mask_bits(v, label as u128) != 0,
    ensures
        present_labels(v, n).contains(Piece { id: label }),
    decreases n,
{
    let rest = present_labels(v, (n - 1) as nat);
    let all = present_labels(v, n);
    if label == n {
        assert(all[all.len() - 1] == Piece { id: label });
    } else {
        lemma_present_labels_complete(v, (n - 1) as nat, label);
        let k = choose|k: int| 0 <= k < rest.len() && rest[k] == Piece { id: label };
        assert(all[k] == Piece { id: label });
    }
}

/// A partner that was found is one of the candidates and is the mirror image asked for.
pub proof fn lemma_partner_in(v: u128, p: Piece, candidates: Seq<Piece>)
    ensures
        partner_in(v, p, candidates) matches Some(q) ==> candidates.contains(q) && is_mirror_of(
            v,
            p,
            q,
        ),
    decreases candidates.len(),
{
    if candidates.len() > 0 && !is_mirror_of(v, p, candidates[0]) {
        lemma_partner_in(v, p, candidates.drop_first());
        if partner_in(v, p, candidates) is Some {
            let q = partner_in(v, p, candidates)->0;
            let k = choose|k: int|
                0 <= k < candidates.drop_first().len() && candidates.drop_first()[k] == q;
            assert(candidates[k + 1] == q);
        }
    } else if candidates.len() > 0 {
        assert(candidates[0] == partner_in(v, p, candidates)->0);
    }
}

/// Every pair among the first `n` pieces joins one of them to its partner, the smaller
/// label first, and the first labels of the pairs ascend.
pub proof fn lemma_pairs_among(v: u128, pieces: Seq<Piece>, n: nat)
    requires
        are_pieces_of(v, pieces),
        n <= pieces.len(),
    ensures
        forall|k: int|
            0 <= k < pairs_among(v, pieces, n).len() ==> {
                let pair = #[trigger] pairs_among(v, pieces, n)[k];
                &&& pair.0.id < pair.1.id
                &&& partner_in(v, pair.0, pieces) == Some(pair.1)
                &&& exists|j: int| 0 <= j < n && pieces[j] == pair.0
            },
        forall|j: int, k: int|
            0 <= j < k < pairs_among(v, pieces, n).len() ==> (#[trigger] pairs_among(
                v,
                pieces,
                n,
            )[j]).0.id < (#[trigger] pairs_among(v, pieces, n)[k]).0.id,
    decreases n,
{
    if n > 0 {
        let rest = pairs_among(v, pieces, (n - 1) as nat);
        let all = pairs_among(v, pieces, n);
        lemma_pairs_among(v, pieces, (n - 1) as nat);
        let p = pieces[n - 1];
        assert forall|k: int| 0 <= k < all.len() implies {
            let pair = #[trigger] all[k];
            &&& pair.0.id < pair.1.id
            &&& partner_in(v, pair.0, pieces) == Some(pair.1)
            &&& exists|j: int| 0 <= j < n && pieces[j] == pair.0
        } by {
            if k < rest.len() {
                assert(all[k] == rest[k]);
                let j = choose|j: int| 0 <= j < n - 1 && pieces[j] == rest[k].0;
                assert(pieces[j] == all[k].0);
            } else {
                assert(pieces[n - 1] == all[k].0);
            }
        }
        assert forall|j: int, k: int| 0 <= j < k < all.len() implies (#[trigger] all[j]).0.id < (
        #[trigger] all[k]).0.id by {
            if k < rest.len() {
                assert(all[k] == rest[k]);
                assert(all[j] == rest[j]);
            } else {
                assert(all[j] == rest[j]);
                let i = choose|i: int| 0 <= i < n - 1 && pieces[i] == rest[j].0;
                assert(pieces[i].id < pieces[n - 1].id);
            }
        }
    }
}

/// The symmetry pairs of an image name every piece at most once.
pub proof fn lemma_symmetry_pairs_match(v: u128, goal: u128, pieces: Seq<Piece>)
    requires
        fits(v),
        are_pieces_of(v, pieces),
    ensures
        is_matching(symmetry_pairs(v, goal, pieces)),
{
    let pairs = symmetry_pairs(v, goal, pieces);
    if pairs.len() > 0 {
        lemma_pairs_among(v, pieces, pieces.len());
        assert forall|k: int| 0 <= k < pairs.len() implies {
            &&& (#[trigger] pairs[k]).0.is_label()
            &&& pairs[k].1.is_label()
            &&& mask_bits(v, pairs[k].0.id as u128) != 0
            &&& mask_bits(v, pairs[k].1.id as u128) != 0
            &&& is_mirror_of(v, pairs[k].0, pairs[k].1)
        } by {
            let pair = pairs[k];
            lemma_partner_in(v, pair.0, pieces);
            let j = choose|j: int| 0 <= j < pieces.len() && pieces[j] == pair.0;
            let i = choose|i: int| 0 <= i < pieces.len() && pieces[i] == pair.1;
        }
        assert forall|j: int, k: int|
            0 <= j < pairs.len() && 0 <= k < pairs.len() && j != k implies {
            &&& (#[trigger] pairs[j]).0.id != (#[trigger] pairs[k]).0.id
            &&& pairs[j].0.id != pairs[k].1.id
            &&& pairs[j].1.id != pairs[k].0.id
            &&& pairs[j].1.id != pairs[k].1.id
        } by {
            let p = pairs[j].0.id as u128;
            let q = pairs[j].1.id as u128;
            let second_p = pairs[k].0.id as u128;
            let second_q = pairs[k].1.id as u128;
            assert(p != second_p) by {
                if j < k {
                    assert(pairs[j].0.id < pairs[k].0.id);
                } else {
                    assert(pairs[k].0.id < pairs[j].0.id);
                }
            }
            lemma_mask_cells(v, p, 0);
            lemma_mask_cells(v, second_p, 0);
            lemma_mirror_twice(mask_bits(v, p));
            lemma_mirror_twice(mask_bits(v, second_p));
            lemma_masks_disjoint(v, p, second_p);
            if q == second_q {
                assert(mask_bits(v, p) == mask_bits(v, second_p));
            }
            if p == second_q {
                assert(mask_bits(v, q) == mask_bits(v, second_p));
                if q != second_p {
                    lemma_masks_disjoint(v, q, second_p);
                }
            }
            if q == second_p {
                assert(mask_bits(v, second_q) == mask_bits(v, p));
                if second_q != p {
                    lemma_masks_disjoint(v, second_q, p);
                }
            }
        }
    }
}

impl Rule {
    /// Whether the rule can be searched: no label of its pieces or of its pairs is above
    /// 15.
    pub open spec fn is_valid(&self) -> bool {
        &&& forall|k: int| 0 <= k < self.pieces@.len() ==> (#[trigger] self.pieces@[k]).id <= 15
        &&& labels_in_range(self.pairs@)
    }

    /// Creates a rule from the start board and the goal mask. The pieces are those that
    /// stand on the start board; the pairs are its symmetry pairs.
    pub fn new(start_board: &Board, goal_mask: &BitPattern) -> (r: Self)
        ensures
            r.start == *start_board,
            r.goal_mask == *goal_mask,
            r.pieces@ == present_labels(start_board.image@, 15),
            r.pairs@ == symmetry_pairs(start_board.image@, goal_mask@, r.pieces@),
            r.is_valid(),
            are_pieces_of(start_board.image@, r.pieces@),
            is_matching(r.pairs@),
    {
        let pieces = Self::create_pieces(start_board);
        let v = start_board.image.get_u128();
        proof {
            lemma_present_labels(v, 15);
            lemma_symmetry_pairs_match(v, goal_mask@, pieces@);
        }
        let pairs = Self::create_pairs(start_board, goal_mask, pieces.as_slice());
        Self { start: *start_board, pieces, pairs, goal_mask: *goal_mask }
    }

    /// Returns true when the large piece, the one with label 1, covers exactly the cells
    /// of the goal mask.
    pub fn is_finished(&self, board: &Board) -> (r: bool)
        ensures
            r == (mask_bits(board.image@, 1) == self.goal_mask@),
    {
        board.image.mask_of(Piece::new(1)).get_u128() == self.goal_mask.get_u128()
    }

    /// Collects the pieces that stand on the start board, in ascending order of label.
    pub fn create_pieces(start_board: &Board) -> (pieces: Vec<Piece>)
        ensures
            pieces@ == present_labels(start_board.image@, 15),
    {
        let mut pieces: Vec<Piece> = Vec::new();
        let mut id: u8 = 1;
        while id <= 15
            invariant
                1 <= id <= 16,
                pieces@ == present_labels(start_board.image@, (id - 1) as nat),
            decreases 16 - id,
        {
            let piece = Piece::new(id);
            if start_board.image.mask_of(piece).is_not_empty() {
                pieces.push(piece);
            }
            id += 1;
        }
        pieces
    }

    /// Looks among the pieces for the first one that is the mirror image of `piece`.
    fn find_partner(board: &Board, piece: Piece, pieces: &[Piece]) -> (r: Option<Piece>)
        requires
            piece.id <= 15,
            forall|k: int| 0 <= k < pieces@.len() ==> (#[trigger] pieces@[k]).id <= 15,
        ensures
            r == partner_in(board.image@, piece, pieces@),
    {
        let wanted = board.image.mask_of(piece).mirrored().get_u128();
        let mut j: usize = 0;
        assert(pieces@.subrange(0, pieces@.len() as int) =~= pieces@);
        while j < pieces.len()
            invariant
                j <= pieces.len(),
                wanted == mirror_bits(mask_bits(board.image@, piece.id as u128)),
                forall|k: int| 0 <= k < pieces@.len() ==> (#[trigger] pieces@[k]).id <= 15,
                partner_in(board.image@, piece, pieces@) == partner_in(
                    board.image@,
                    piece,
                    pieces@.subrange(j as int, pieces@.len() as int),
                ),
            decreases pieces.len() - j,
        {
            let candidate = pieces[j];
            let ghost tail = pieces@.subrange(j as int, pieces@.len() as int);
            assert(tail[0] == candidate);
            if board.image.mask_of(candidate).get_u128() == wanted {
                return Some(candidate);
            }
            assert(tail.drop_first() =~= pieces@.subrange(j + 1, pieces@.len() as int));
            j += 1;
        }
        assert(pieces@.subrange(j as int, pieces@.len() as int).len() == 0);
        None
    }

    /// Pairs each piece with its mirror image on the board, the smaller label first.
    /// Returns no pairs unless the goal mask is its own mirror image and every piece has
    /// a mirror image among the pieces.
    pub fn create_pairs(board: &Board, goal_mask: &BitPattern, pieces: &[Piece]) -> (pairs: Vec<
        (Piece, Piece),
    >)
        requires
            forall|k: int| 0 <= k < pieces@.len() ==> (#[trigger] pieces@[k]).id <= 15,
        ensures
            pairs@ == symmetry_pairs(board.image@, goal_mask@, pieces@),
    {
        if goal_mask.get_u128() != goal_mask.mirrored().get_u128() {
            return Vec::new();
        }
        let mut pairs: Vec<(Piece, Piece)> = Vec::new();
        let mut k: usize = 0;
        while k < pieces.len()
            invariant
                k <= pieces.len(),
                goal_mask@ == mirror_bits(goal_mask@),
                forall|i: int| 0 <= i < pieces@.len() ==> (#[trigger] pieces@[i]).id <= 15,
                forall|i: int|
                    0 <= i < k ==> partner_in(board.image@, #[trigger] pieces@[i], pieces@) is Some,
                pairs@ == pairs_among(board.image@, pieces@, k as nat),
            decreases pieces.len() - k,
        {
            let piece = pieces[k];
            match Self::find_partner(board, piece, pieces) {
                None => {
                    assert(!all_have_partners(board.image@, pieces@)) by {
                        assert(partner_in(board.image@, pieces@[k as int], pieces@) is None);
                    }
                    return Vec::new();
                },
                Some(partner) => {
                    if piece.id < partner.id {
                        pairs.push((piece, partner));
                    }
                },
            }
            k += 1;
        }
        pairs
    }
}

} // verus!
