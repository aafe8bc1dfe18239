//! Positions in the packed training-data layout: the occupancy, one four-bit piece code per
//! occupied square (in square order), and both kings' squares, all relative to the side to move.
use vstd::prelude::*;
use crate::bitboard::{popcount, squares_of, count_ones};

verus! {

/// The four-bit code of the `i`-th occupied square: bit 3 the colour (set for the opponent),
/// bits 0 to 2 the piece type (pawn 0 to king 5).
pub open spec fn packed_piece(pcs: Seq<u8>, i: int) -> u8 {
    (pcs[i / 2] >> (4 * (i % 2)) as u8) & 15u8
}

/// The (piece code, square) pairs of a packed position, in square order.
pub open spec fn pieces_of(occ: u64, pcs: Seq<u8>) -> Seq<(u8, u8)> {
    Seq::new(popcount(occ), |i: int| (packed_piece(pcs, i), squares_of(occ)[i] as u8))
}

/// A position in the packed layout of the training data: what the input features read of it.
pub struct PackedBoard {
    pub occ: u64,
    pub pcs: [u8; 16],
    pub ksq: u8,
    pub opp_ksq: u8,
}

/// `bulletformat::ChessBoard`'s iterator: the (piece, square) pairs of the position, taking the
/// occupied squares in increasing order and the piece codes one nibble at a time, low nibble
/// first.
#[verifier::external_body]
fn board_pieces(occ: u64, pcs: [u8; 16]) -> (r: Vec<(u8, u8)>)
    requires
        popcount(occ) <= 32,
    ensures
        r@ == pieces_of(occ, pcs@),
{
    let board = bulletformat::ChessBoard { occ, pcs, ..Default::default() };
    board.into_iter().collect()
}

impl PackedBoard {
    /// The occupied squares.
    pub fn occ(&self) -> (r: u64)
        ensures
            r == self.occ,
    {
        self.occ
    }

    /// The king square of the side to move.
    pub fn our_ksq(&self) -> (r: u8)
        ensures
            r == self.ksq,
    {
        self.ksq
    }

    /// The king square of the opponent, mirrored to its own point of view.
    pub fn opp_ksq(&self) -> (r: u8)
        ensures
            r == self.opp_ksq,
    {
        self.opp_ksq
    }

    /// The (piece code, square) pairs of the position, in square order.
    pub fn pieces(&self) -> (r: Vec<(u8, u8)>)
        requires
            popcount(self.occ) <= 32,
        ensures
            r@ == pieces_of(self.occ, self.pcs@),
    {
        board_pieces(self.occ, self.pcs)
    }
}

/// A packed position that the inputs can read: at most 32 pieces, each with a piece type, and
/// both kings on the board.
pub open spec fn board_well_formed(pos: PackedBoard) -> bool {
    let pieces = pieces_of(pos.occ, pos.pcs@);
    &&& popcount(pos.occ) <= 32
    &&& pos.ksq < 64
    &&& pos.opp_ksq < 64
    &&& forall|i: int| 0 <= i < pieces.len() ==> (#[trigger] pieces[i]).0 & 7u8 < 6
}

/// No pawn on the first or the last rank.
pub open spec fn pawns_inside(pos: PackedBoard) -> bool {
    let pieces = pieces_of(pos.occ, pos.pcs@);
    forall|i: int| 0 <= i < pieces.len() && (#[trigger] pieces[i]).0 & 7u8 == 0 ==> 8 <= pieces[i].1 < 56
}

impl PackedBoard {
    /// Whether the inputs can read the position.
    pub fn well_formed(&self) -> (r: bool)
        ensures
            r == board_well_formed(*self),
    {
        if count_ones(self.occ) > 32 || self.ksq >= 64 || self.opp_ksq >= 64 {
            return false;
        }
        let pieces = self.pieces();
        let mut i: usize = 0;
        while i < pieces.len()
            invariant
                pieces@ == pieces_of(self.occ, self.pcs@),
                i <= pieces@.len(),
                forall|j: int| 0 <= j < i ==> (#[trigger] pieces@[j]).0 & 7u8 < 6,
            decreases pieces@.len() - i,
        {
            if pieces[i].0 & 7 >= 6 {
                return false;
            }
            i += 1;
        }
        true
    }

    /// Whether no pawn stands on the first or the last rank.
    pub fn pawns_inside(&self) -> (r: bool)
        requires
            popcount(self.occ) <= 32,
        ensures
            r == pawns_inside(*self),
    {
        let pieces = self.pieces();
        let mut i: usize = 0;
        while i < pieces.len()
            invariant
                pieces@ == pieces_of(self.occ, self.pcs@),
                i <= pieces@.len(),
                forall|j: int| 0 <= j < i && (#[trigger] pieces@[j]).0 & 7u8 == 0 ==> 8 <= pieces@[j].1 < 56,
            decreases pieces@.len() - i,
        {
            let (pc, sq) = pieces[i];
            if pc & 7 == 0 && (sq < 8 || sq >= 56) {
                return false;
            }
            i += 1;
        }
        true
    }
}

/// Output buckets by material: the number of pieces besides one king, in groups of four.
#[derive(Clone, Copy)]
pub struct SfMaterialCount;

impl SfMaterialCount {
    pub const BUCKETS: usize = 8;

    /// The output bucket of a position.
    pub fn bucket(&self, pos: &PackedBoard) -> (r: u8)
        requires
            pos.occ != 0,
        ensures
            r == (popcount(pos.occ) - 1) / 4,
    {
        proof {
            crate::bitboard::lemma_count_below_mono(pos.occ, 64, 64);
            if popcount(pos.occ) == 0 {
                crate::bitboard::lemma_popcount_zero(pos.occ);
            }
        }
        let piece_count = count_ones(pos.occ()) as u8 - 1;
        piece_count / 4
    }
}

/// Whether a training entry is used: from ply 16 on, with the side to move not in check, an
/// evaluation of at most 10000 either way, and a normal move onto an empty square.
pub fn keeps_entry(ply: u16, in_check: bool, score: i16, normal_move: bool, onto_empty: bool) -> (r: bool)
    ensures
        r == (ply >= 16 && !in_check && -10000 <= score <= 10000 && normal_move && onto_empty),
{
    let magnitude: u16 = if score < 0 {
        (0i32 - score as i32) as u16
    } else {
        score as u16
    };
    ply >= 16 && !in_check && magnitude <= 10000 && normal_move && onto_empty
}

} // verus!
