//! Attack sets of the chess pieces.
use vstd::prelude::*;
use crate::bitboard::bit_set;
use crate::geometry::{
    knight_jump, king_step, pawn_capture, knight_attacks, king_attacks, pawn_captures,
    lemma_is_board_of, rook_attacks, bishop_attacks, queen_attacks,
};
use crate::slider::{bishop_squares, rook_squares, queen_squares};

verus! {

/// The two colours, numbered as bitboard indices.
pub struct Side;

impl Side {
    pub const WHITE: usize = 0;
    pub const BLACK: usize = 1;
}

/// The six piece types, numbered as bitboard indices (after the two colour boards).
pub struct Piece;

impl Piece {
    pub const PAWN: usize = 2;
    pub const KNIGHT: usize = 3;
    pub const BISHOP: usize = 4;
    pub const ROOK: usize = 5;
    pub const QUEEN: usize = 6;
    pub const KING: usize = 7;
}

/// The a-file.
pub const FILE_A: u64 = 0x0101_0101_0101_0101;

/// The h-file.
pub const FILE_H: u64 = 0x8080_8080_8080_8080;

pub open spec fn knight_pattern(sq: u64) -> u64 {
    let n = 1u64 << sq;
    let h1 = ((n >> 1u64) & 0x7f7f_7f7f_7f7f_7f7fu64) | ((n << 1u64) & 0xfefe_fefe_fefe_fefeu64);
    let h2 = ((n >> 2u64) & 0x3f3f_3f3f_3f3f_3f3fu64) | ((n << 2u64) & 0xfcfc_fcfc_fcfc_fcfcu64);
    (h1 << 16u64) | (h1 >> 16u64) | (h2 << 8u64) | (h2 >> 8u64)
}

pub(crate) proof fn lemma_knight_pattern(sq: u64, t: u64)
    by (bit_vector)
    requires
        sq < 64,
        t < 64,
    ensures
        bit_set(knight_pattern(sq), t) == knight_jump(sq, t),
{
}

pub open spec fn king_pattern(sq: u64) -> u64 {
    let k0 = 1u64 << sq;
    let k1 = k0 | ((k0 << 8u64) | (k0 >> 8u64));
    let k2 = k1 | (((k1 & !0x0101_0101_0101_0101u64) >> 1u64) | ((k1 & !0x8080_8080_8080_8080u64)
        << 1u64));
    k2 ^ (1u64 << sq)
}

pub(crate) proof fn lemma_king_pattern(sq: u64, t: u64)
    by (bit_vector)
    requires
        sq < 64,
        t < 64,
    ensures
        bit_set(king_pattern(sq), t) == king_step(sq, t),
{
}

pub open spec fn pawn_pattern(side: u64, sq: u64) -> u64 {
    let bit = 1u64 << sq;
    if side == 0 {
        ((bit & !0x0101_0101_0101_0101u64) << 7u64) | ((bit & !0x8080_8080_8080_8080u64) << 9u64)
    } else {
        ((bit & !0x0101_0101_0101_0101u64) >> 9u64) | ((bit & !0x8080_8080_8080_8080u64) >> 7u64)
    }
}

pub(crate) proof fn lemma_pawn_pattern(side: u64, sq: u64, t: u64)
    by (bit_vector)
    requires
        sq < 64,
        t < 64,
    ensures
        bit_set(pawn_pattern(side, sq), t) == pawn_capture(side, sq, t),
{
}

/// The squares that a white (`side == 0`) or black pawn on `sq` captures on.
pub fn pawn_capture_squares(sq: usize, side: usize) -> (r: u64)
    requires
        sq < 64,
    ensures
        r == pawn_captures(side as u64, sq as u64),
{
    let bit = 1u64 << sq;
    let r = if side == Side::WHITE {
        ((bit & !FILE_A) << 7) | ((bit & !FILE_H) << 9)
    } else {
        ((bit & !FILE_A) >> 9) | ((bit & !FILE_H) >> 7)
    };
    proof {
        assert(r == pawn_pattern(side as u64, sq as u64));
        assert forall|t: u64| t < 64 implies #[trigger] bit_set(r, t) == pawn_capture(side as u64, sq as u64, t) by {
            lemma_pawn_pattern(side as u64, sq as u64, t);
        }
        lemma_is_board_of(r, |t: u64| pawn_capture(side as u64, sq as u64, t));
    }
    r
}

/// The squares a knight on `sq` jumps to.
pub fn knight_squares(sq: usize) -> (r: u64)
    requires
        sq < 64,
    ensures
        r == knight_attacks(sq as u64),
{
    let n = 1u64 << sq;
    let h1 = ((n >> 1) & 0x7f7f_7f7f_7f7f_7f7f) | ((n << 1) & 0xfefe_fefe_fefe_fefe);
    let h2 = ((n >> 2) & 0x3f3f_3f3f_3f3f_3f3f) | ((n << 2) & 0xfcfc_fcfc_fcfc_fcfc);
    let r = (h1 << 16) | (h1 >> 16) | (h2 << 8) | (h2 >> 8);
    proof {
        assert(r == knight_pattern(sq as u64));
        assert forall|t: u64| t < 64 implies #[trigger] bit_set(r, t) == knight_jump(sq as u64, t) by {
            lemma_knight_pattern(sq as u64, t);
        }
        lemma_is_board_of(r, |t: u64| knight_jump(sq as u64, t));
    }
    r
}

/// The squares a king on `sq` steps to.
pub fn king_squares(sq: usize) -> (r: u64)
    requires
        sq < 64,
    ensures
        r == king_attacks(sq as u64),
{
    let mut k = 1u64 << sq;
    k |= (k << 8) | (k >> 8);
    k |= ((k & !FILE_A) >> 1) | ((k & !FILE_H) << 1);
    let r = k ^ (1u64 << sq);
    proof {
        assert(r == king_pattern(sq as u64));
        assert forall|t: u64| t < 64 implies #[trigger] bit_set(r, t) == king_step(sq as u64, t) by {
            lemma_king_pattern(sq as u64, t);
        }
        lemma_is_board_of(r, |t: u64| king_step(sq as u64, t));
    }
    r
}

/// Attack lookups by piece.
pub struct Attacks;

impl Attacks {
    /// The squares a pawn of `side` on `sq` captures on.
    pub fn pawn(sq: usize, side: usize) -> (r: u64)
        requires
            sq < 64,
            side < 2,
        ensures
            r == pawn_captures(side as u64, sq as u64),
    {
        pawn_capture_squares(sq, side)
    }

    /// The squares a knight on `sq` attacks.
    pub fn knight(sq: usize) -> (r: u64)
        requires
            sq < 64,
        ensures
            r == knight_attacks(sq as u64),
    {
        knight_squares(sq)
    }

    /// The squares a king on `sq` attacks.
    pub fn king(sq: usize) -> (r: u64)
        requires
            sq < 64,
        ensures
            r == king_attacks(sq as u64),
    {
        king_squares(sq)
    }

    /// The squares a bishop on `sq` attacks through the occupancy `occ` (hyperbola quintessence).
    pub fn bishop(sq: usize, occ: u64) -> (r: u64)
        requires
            sq < 64,
        ensures
            r == bishop_attacks(sq as u64, occ),
    {
        bishop_squares(sq, occ)
    }

    /// The squares a rook on `sq` attacks through the occupancy `occ` (shifted lookup).
    pub fn rook(sq: usize, occ: u64) -> (r: u64)
        requires
            sq < 64,
        ensures
            r == rook_attacks(sq as u64, occ),
    {
        rook_squares(sq, occ)
    }

    /// The squares a queen on `sq` attacks through the occupancy `occ`.
    pub fn queen(sq: usize, occ: u64) -> (r: u64)
        requires
            sq < 64,
        ensures
            r == queen_attacks(sq as u64, occ),
    {
        queen_squares(sq, occ)
    }
}

} // verus!
