//! The sizes of the feature tables: the threat features number 60720 and the bucketed threat
//! features of one side 39928, as the table offsets add up.
use vstd::prelude::*;
use crate::bitboard::{bit_set, popcount, lemma_bit_ops, lemma_bit_ext};
use crate::attacks::{
    knight_pattern, king_pattern, pawn_pattern, lemma_knight_pattern, lemma_king_pattern,
    lemma_pawn_pattern,
};
use crate::geometry::{
    pawn_step, pawn_capture, pawn_captures, pawn_pushes, knight_jump, king_step, rook_sees,
    bishop_sees, lemma_board_of, same_rank, same_file, same_diagonal, same_anti_diagonal,
};
use crate::full_threats::{target_set, square_count, square_offset, piece_offset, threat_features};
use crate::threat_inputs::offset_end;

verus! {

/// The square a pawn of `side` on `sq` pushes to, as a bitboard.
pub open spec fn push_pattern(side: u64, sq: u64) -> u64 {
    if side == 0 {
        (1u64 << sq) << 8u64
    } else {
        (1u64 << sq) >> 8u64
    }
}

/// The rank and the file of `sq`, without `sq` itself.
pub open spec fn rook_empty(sq: u64) -> u64 {
    ((0xffu64 << (sq & 56u64)) | (0x0101_0101_0101_0101u64 << (sq & 7u64))) & !(1u64 << sq)
}

/// The two diagonals through `sq`, without `sq` itself.
pub open spec fn bishop_empty(sq: u64) -> u64 {
    let r = sq / 8;
    let f = sq % 8;
    let diag = if r >= f {
        0x8040_2010_0804_0201u64 << ((8 * (r - f)) as u64)
    } else {
        0x8040_2010_0804_0201u64 >> ((8 * (f - r)) as u64)
    };
    let anti = if r + f >= 7 {
        0x0102_0408_1020_4080u64 << ((8 * (r + f - 7)) as u64)
    } else {
        0x0102_0408_1020_4080u64 >> ((8 * (7 - r - f)) as u64)
    };
    (diag | anti) & !(1u64 << sq)
}

/// The push, rook and bishop formulas give the squares of the chess moves on an empty board.
proof fn lemma_empty_board_patterns(side: u64, sq: u64, t: u64)
    by (bit_vector)
    requires
        side < 2,
        sq < 64,
        t < 64,
    ensures
        bit_set(push_pattern(side, sq), t) == pawn_step(side, sq, t),
        bit_set(rook_empty(sq), t) == (sq != t && (same_rank(sq, t) || same_file(sq, t))),
        bit_set(bishop_empty(sq), t) == (sq != t && (same_diagonal(sq, t) || same_anti_diagonal(sq, t))),
{
}


/// The squares knights reach from every square of an empty board.
pub open spec fn knight_total() -> nat {
    popcount(knight_pattern(0u64)) + popcount(knight_pattern(1u64)) + popcount(knight_pattern(2u64)) + popcount(knight_pattern(3u64)) + popcount(knight_pattern(4u64)) + popcount(knight_pattern(5u64)) + popcount(knight_pattern(6u64)) + popcount(knight_pattern(7u64)) + popcount(knight_pattern(8u64)) + popcount(knight_pattern(9u64)) + popcount(knight_pattern(10u64)) + popcount(knight_pattern(11u64)) + popcount(knight_pattern(12u64)) + popcount(knight_pattern(13u64)) + popcount(knight_pattern(14u64)) + popcount(knight_pattern(15u64)) + popcount(knight_pattern(16u64)) + popcount(knight_pattern(17u64)) + popcount(knight_pattern(18u64)) + popcount(knight_pattern(19u64)) + popcount(knight_pattern(20u64)) + popcount(knight_pattern(21u64)) + popcount(knight_pattern(22u64)) + popcount(knight_pattern(23u64)) + popcount(knight_pattern(24u64)) + popcount(knight_pattern(25u64)) + popcount(knight_pattern(26u64)) + popcount(knight_pattern(27u64)) + popcount(knight_pattern(28u64)) + popcount(knight_pattern(29u64)) + popcount(knight_pattern(30u64)) + popcount(knight_pattern(31u64)) + popcount(knight_pattern(32u64)) + popcount(knight_pattern(33u64)) + popcount(knight_pattern(34u64)) + popcount(knight_pattern(35u64)) + popcount(knight_pattern(36u64)) + popcount(knight_pattern(37u64)) + popcount(knight_pattern(38u64)) + popcount(knight_pattern(39u64)) + popcount(knight_pattern(40u64)) + popcount(knight_pattern(41u64)) + popcount(knight_pattern(42u64)) + popcount(knight_pattern(43u64)) + popcount(knight_pattern(44u64)) + popcount(knight_pattern(45u64)) + popcount(knight_pattern(46u64)) + popcount(knight_pattern(47u64)) + popcount(knight_pattern(48u64)) + popcount(knight_pattern(49u64)) + popcount(knight_pattern(50u64)) + popcount(knight_pattern(51u64)) + popcount(knight_pattern(52u64)) + popcount(knight_pattern(53u64)) + popcount(knight_pattern(54u64)) + popcount(knight_pattern(55u64)) + popcount(knight_pattern(56u64)) + popcount(knight_pattern(57u64)) + popcount(knight_pattern(58u64)) + popcount(knight_pattern(59u64)) + popcount(knight_pattern(60u64)) + popcount(knight_pattern(61u64)) + popcount(knight_pattern(62u64)) + popcount(knight_pattern(63u64))
}

/// The squares bishops reach from every square of an empty board.
pub open spec fn bishop_total() -> nat {
    popcount(bishop_empty(0u64)) + popcount(bishop_empty(1u64)) + popcount(bishop_empty(2u64)) + popcount(bishop_empty(3u64)) + popcount(bishop_empty(4u64)) + popcount(bishop_empty(5u64)) + popcount(bishop_empty(6u64)) + popcount(bishop_empty(7u64)) + popcount(bishop_empty(8u64)) + popcount(bishop_empty(9u64)) + popcount(bishop_empty(10u64)) + popcount(bishop_empty(11u64)) + popcount(bishop_empty(12u64)) + popcount(bishop_empty(13u64)) + popcount(bishop_empty(14u64)) + popcount(bishop_empty(15u64)) + popcount(bishop_empty(16u64)) + popcount(bishop_empty(17u64)) + popcount(bishop_empty(18u64)) + popcount(bishop_empty(19u64)) + popcount(bishop_empty(20u64)) + popcount(bishop_empty(21u64)) + popcount(bishop_empty(22u64)) + popcount(bishop_empty(23u64)) + popcount(bishop_empty(24u64)) + popcount(bishop_empty(25u64)) + popcount(bishop_empty(26u64)) + popcount(bishop_empty(27u64)) + popcount(bishop_empty(28u64)) + popcount(bishop_empty(29u64)) + popcount(bishop_empty(30u64)) + popcount(bishop_empty(31u64)) + popcount(bishop_empty(32u64)) + popcount(bishop_empty(33u64)) + popcount(bishop_empty(34u64)) + popcount(bishop_empty(35u64)) + popcount(bishop_empty(36u64)) + popcount(bishop_empty(37u64)) + popcount(bishop_empty(38u64)) + popcount(bishop_empty(39u64)) + popcount(bishop_empty(40u64)) + popcount(bishop_empty(41u64)) + popcount(bishop_empty(42u64)) + popcount(bishop_empty(43u64)) + popcount(bishop_empty(44u64)) + popcount(bishop_empty(45u64)) + popcount(bishop_empty(46u64)) + popcount(bishop_empty(47u64)) + popcount(bishop_empty(48u64)) + popcount(bishop_empty(49u64)) + popcount(bishop_empty(50u64)) + popcount(bishop_empty(51u64)) + popcount(bishop_empty(52u64)) + popcount(bishop_empty(53u64)) + popcount(bishop_empty(54u64)) + popcount(bishop_empty(55u64)) + popcount(bishop_empty(56u64)) + popcount(bishop_empty(57u64)) + popcount(bishop_empty(58u64)) + popcount(bishop_empty(59u64)) + popcount(bishop_empty(60u64)) + popcount(bishop_empty(61u64)) + popcount(bishop_empty(62u64)) + popcount(bishop_empty(63u64))
}

/// The squares rooks reach from every square of an empty board.
pub open spec fn rook_total() -> nat {
    popcount(rook_empty(0u64)) + popcount(rook_empty(1u64)) + popcount(rook_empty(2u64)) + popcount(rook_empty(3u64)) + popcount(rook_empty(4u64)) + popcount(rook_empty(5u64)) + popcount(rook_empty(6u64)) + popcount(rook_empty(7u64)) + popcount(rook_empty(8u64)) + popcount(rook_empty(9u64)) + popcount(rook_empty(10u64)) + popcount(rook_empty(11u64)) + popcount(rook_empty(12u64)) + popcount(rook_empty(13u64)) + popcount(rook_empty(14u64)) + popcount(rook_empty(15u64)) + popcount(rook_empty(16u64)) + popcount(rook_empty(17u64)) + popcount(rook_empty(18u64)) + popcount(rook_empty(19u64)) + popcount(rook_empty(20u64)) + popcount(rook_empty(21u64)) + popcount(rook_empty(22u64)) + popcount(rook_empty(23u64)) + popcount(rook_empty(24u64)) + popcount(rook_empty(25u64)) + popcount(rook_empty(26u64)) + popcount(rook_empty(27u64)) + popcount(rook_empty(28u64)) + popcount(rook_empty(29u64)) + popcount(rook_empty(30u64)) + popcount(rook_empty(31u64)) + popcount(rook_empty(32u64)) + popcount(rook_empty(33u64)) + popcount(rook_empty(34u64)) + popcount(rook_empty(35u64)) + popcount(rook_empty(36u64)) + popcount(rook_empty(37u64)) + popcount(rook_empty(38u64)) + popcount(rook_empty(39u64)) + popcount(rook_empty(40u64)) + popcount(rook_empty(41u64)) + popcount(rook_empty(42u64)) + popcount(rook_empty(43u64)) + popcount(rook_empty(44u64)) + popcount(rook_empty(45u64)) + popcount(rook_empty(46u64)) + popcount(rook_empty(47u64)) + popcount(rook_empty(48u64)) + popcount(rook_empty(49u64)) + popcount(rook_empty(50u64)) + popcount(rook_empty(51u64)) + popcount(rook_empty(52u64)) + popcount(rook_empty(53u64)) + popcount(rook_empty(54u64)) + popcount(rook_empty(55u64)) + popcount(rook_empty(56u64)) + popcount(rook_empty(57u64)) + popcount(rook_empty(58u64)) + popcount(rook_empty(59u64)) + popcount(rook_empty(60u64)) + popcount(rook_empty(61u64)) + popcount(rook_empty(62u64)) + popcount(rook_empty(63u64))
}

/// The squares queens reach from every square of an empty board.
pub open spec fn queen_total() -> nat {
    popcount(rook_empty(0u64) | bishop_empty(0u64)) + popcount(rook_empty(1u64) | bishop_empty(1u64)) + popcount(rook_empty(2u64) | bishop_empty(2u64)) + popcount(rook_empty(3u64) | bishop_empty(3u64)) + popcount(rook_empty(4u64) | bishop_empty(4u64)) + popcount(rook_empty(5u64) | bishop_empty(5u64)) + popcount(rook_empty(6u64) | bishop_empty(6u64)) + popcount(rook_empty(7u64) | bishop_empty(7u64)) + popcount(rook_empty(8u64) | bishop_empty(8u64)) + popcount(rook_empty(9u64) | bishop_empty(9u64)) + popcount(rook_empty(10u64) | bishop_empty(10u64)) + popcount(rook_empty(11u64) | bishop_empty(11u64)) + popcount(rook_empty(12u64) | bishop_empty(12u64)) + popcount(rook_empty(13u64) | bishop_empty(13u64)) + popcount(rook_empty(14u64) | bishop_empty(14u64)) + popcount(rook_empty(15u64) | bishop_empty(15u64)) + popcount(rook_empty(16u64) | bishop_empty(16u64)) + popcount(rook_empty(17u64) | bishop_empty(17u64)) + popcount(rook_empty(18u64) | bishop_empty(18u64)) + popcount(rook_empty(19u64) | bishop_empty(19u64)) + popcount(rook_empty(20u64) | bishop_empty(20u64)) + popcount(rook_empty(21u64) | bishop_empty(21u64)) + popcount(rook_empty(22u64) | bishop_empty(22u64)) + popcount(rook_empty(23u64) | bishop_empty(23u64)) + popcount(rook_empty(24u64) | bishop_empty(24u64)) + popcount(rook_empty(25u64) | bishop_empty(25u64)) + popcount(rook_empty(26u64) | bishop_empty(26u64)) + popcount(rook_empty(27u64) | bishop_empty(27u64)) + popcount(rook_empty(28u64) | bishop_empty(28u64)) + popcount(rook_empty(29u64) | bishop_empty(29u64)) + popcount(rook_empty(30u64) | bishop_empty(30u64)) + popcount(rook_empty(31u64) | bishop_empty(31u64)) + popcount(rook_empty(32u64) | bishop_empty(32u64)) + popcount(rook_empty(33u64) | bishop_empty(33u64)) + popcount(rook_empty(34u64) | bishop_empty(34u64)) + popcount(rook_empty(35u64) | bishop_empty(35u64)) + popcount(rook_empty(36u64) | bishop_empty(36u64)) + popcount(rook_empty(37u64) | bishop_empty(37u64)) + popcount(rook_empty(38u64) | bishop_empty(38u64)) + popcount(rook_empty(39u64) | bishop_empty(39u64)) + popcount(rook_empty(40u64) | bishop_empty(40u64)) + popcount(rook_empty(41u64) | bishop_empty(41u64)) + popcount(rook_empty(42u64) | bishop_empty(42u64)) + popcount(rook_empty(43u64) | bishop_empty(43u64)) + popcount(rook_empty(44u64) | bishop_empty(44u64)) + popcount(rook_empty(45u64) | bishop_empty(45u64)) + popcount(rook_empty(46u64) | bishop_empty(46u64)) + popcount(rook_empty(47u64) | bishop_empty(47u64)) + popcount(rook_empty(48u64) | bishop_empty(48u64)) + popcount(rook_empty(49u64) | bishop_empty(49u64)) + popcount(rook_empty(50u64) | bishop_empty(50u64)) + popcount(rook_empty(51u64) | bishop_empty(51u64)) + popcount(rook_empty(52u64) | bishop_empty(52u64)) + popcount(rook_empty(53u64) | bishop_empty(53u64)) + popcount(rook_empty(54u64) | bishop_empty(54u64)) + popcount(rook_empty(55u64) | bishop_empty(55u64)) + popcount(rook_empty(56u64) | bishop_empty(56u64)) + popcount(rook_empty(57u64) | bishop_empty(57u64)) + popcount(rook_empty(58u64) | bishop_empty(58u64)) + popcount(rook_empty(59u64) | bishop_empty(59u64)) + popcount(rook_empty(60u64) | bishop_empty(60u64)) + popcount(rook_empty(61u64) | bishop_empty(61u64)) + popcount(rook_empty(62u64) | bishop_empty(62u64)) + popcount(rook_empty(63u64) | bishop_empty(63u64))
}

/// The squares kings reach from every square of an empty board.
pub open spec fn king_total() -> nat {
    popcount(king_pattern(0u64)) + popcount(king_pattern(1u64)) + popcount(king_pattern(2u64)) + popcount(king_pattern(3u64)) + popcount(king_pattern(4u64)) + popcount(king_pattern(5u64)) + popcount(king_pattern(6u64)) + popcount(king_pattern(7u64)) + popcount(king_pattern(8u64)) + popcount(king_pattern(9u64)) + popcount(king_pattern(10u64)) + popcount(king_pattern(11u64)) + popcount(king_pattern(12u64)) + popcount(king_pattern(13u64)) + popcount(king_pattern(14u64)) + popcount(king_pattern(15u64)) + popcount(king_pattern(16u64)) + popcount(king_pattern(17u64)) + popcount(king_pattern(18u64)) + popcount(king_pattern(19u64)) + popcount(king_pattern(20u64)) + popcount(king_pattern(21u64)) + popcount(king_pattern(22u64)) + popcount(king_pattern(23u64)) + popcount(king_pattern(24u64)) + popcount(king_pattern(25u64)) + popcount(king_pattern(26u64)) + popcount(king_pattern(27u64)) + popcount(king_pattern(28u64)) + popcount(king_pattern(29u64)) + popcount(king_pattern(30u64)) + popcount(king_pattern(31u64)) + popcount(king_pattern(32u64)) + popcount(king_pattern(33u64)) + popcount(king_pattern(34u64)) + popcount(king_pattern(35u64)) + popcount(king_pattern(36u64)) + popcount(king_pattern(37u64)) + popcount(king_pattern(38u64)) + popcount(king_pattern(39u64)) + popcount(king_pattern(40u64)) + popcount(king_pattern(41u64)) + popcount(king_pattern(42u64)) + popcount(king_pattern(43u64)) + popcount(king_pattern(44u64)) + popcount(king_pattern(45u64)) + popcount(king_pattern(46u64)) + popcount(king_pattern(47u64)) + popcount(king_pattern(48u64)) + popcount(king_pattern(49u64)) + popcount(king_pattern(50u64)) + popcount(king_pattern(51u64)) + popcount(king_pattern(52u64)) + popcount(king_pattern(53u64)) + popcount(king_pattern(54u64)) + popcount(king_pattern(55u64)) + popcount(king_pattern(56u64)) + popcount(king_pattern(57u64)) + popcount(king_pattern(58u64)) + popcount(king_pattern(59u64)) + popcount(king_pattern(60u64)) + popcount(king_pattern(61u64)) + popcount(king_pattern(62u64)) + popcount(king_pattern(63u64))
}

/// The captures and pushes of white pawns from the second to the seventh rank.
pub open spec fn white_pawn_total() -> nat {
    popcount(pawn_pattern(0u64, 8u64) | push_pattern(0u64, 8u64)) + popcount(pawn_pattern(0u64, 9u64) | push_pattern(0u64, 9u64)) + popcount(pawn_pattern(0u64, 10u64) | push_pattern(0u64, 10u64)) + popcount(pawn_pattern(0u64, 11u64) | push_pattern(0u64, 11u64)) + popcount(pawn_pattern(0u64, 12u64) | push_pattern(0u64, 12u64)) + popcount(pawn_pattern(0u64, 13u64) | push_pattern(0u64, 13u64)) + popcount(pawn_pattern(0u64, 14u64) | push_pattern(0u64, 14u64)) + popcount(pawn_pattern(0u64, 15u64) | push_pattern(0u64, 15u64)) + popcount(pawn_pattern(0u64, 16u64) | push_pattern(0u64, 16u64)) + popcount(pawn_pattern(0u64, 17u64) | push_pattern(0u64, 17u64)) + popcount(pawn_pattern(0u64, 18u64) | push_pattern(0u64, 18u64)) + popcount(pawn_pattern(0u64, 19u64) | push_pattern(0u64, 19u64)) + popcount(pawn_pattern(0u64, 20u64) | push_pattern(0u64, 20u64)) + popcount(pawn_pattern(0u64, 21u64) | push_pattern(0u64, 21u64)) + popcount(pawn_pattern(0u64, 22u64) | push_pattern(0u64, 22u64)) + popcount(pawn_pattern(0u64, 23u64) | push_pattern(0u64, 23u64)) + popcount(pawn_pattern(0u64, 24u64) | push_pattern(0u64, 24u64)) + popcount(pawn_pattern(0u64, 25u64) | push_pattern(0u64, 25u64)) + popcount(pawn_pattern(0u64, 26u64) | push_pattern(0u64, 26u64)) + popcount(pawn_pattern(0u64, 27u64) | push_pattern(0u64, 27u64)) + popcount(pawn_pattern(0u64, 28u64) | push_pattern(0u64, 28u64)) + popcount(pawn_pattern(0u64, 29u64) | push_pattern(0u64, 29u64)) + popcount(pawn_pattern(0u64, 30u64) | push_pattern(0u64, 30u64)) + popcount(pawn_pattern(0u64, 31u64) | push_pattern(0u64, 31u64)) + popcount(pawn_pattern(0u64, 32u64) | push_pattern(0u64, 32u64)) + popcount(pawn_pattern(0u64, 33u64) | push_pattern(0u64, 33u64)) + popcount(pawn_pattern(0u64, 34u64) | push_pattern(0u64, 34u64)) + popcount(pawn_pattern(0u64, 35u64) | push_pattern(0u64, 35u64)) + popcount(pawn_pattern(0u64, 36u64) | push_pattern(0u64, 36u64)) + popcount(pawn_pattern(0u64, 37u64) | push_pattern(0u64, 37u64)) + popcount(pawn_pattern(0u64, 38u64) | push_pattern(0u64, 38u64)) + popcount(pawn_pattern(0u64, 39u64) | push_pattern(0u64, 39u64)) + popcount(pawn_pattern(0u64, 40u64) | push_pattern(0u64, 40u64)) + popcount(pawn_pattern(0u64, 41u64) | push_pattern(0u64, 41u64)) + popcount(pawn_pattern(0u64, 42u64) | push_pattern(0u64, 42u64)) + popcount(pawn_pattern(0u64, 43u64) | push_pattern(0u64, 43u64)) + popcount(pawn_pattern(0u64, 44u64) | push_pattern(0u64, 44u64)) + popcount(pawn_pattern(0u64, 45u64) | push_pattern(0u64, 45u64)) + popcount(pawn_pattern(0u64, 46u64) | push_pattern(0u64, 46u64)) + popcount(pawn_pattern(0u64, 47u64) | push_pattern(0u64, 47u64)) + popcount(pawn_pattern(0u64, 48u64) | push_pattern(0u64, 48u64)) + popcount(pawn_pattern(0u64, 49u64) | push_pattern(0u64, 49u64)) + popcount(pawn_pattern(0u64, 50u64) | push_pattern(0u64, 50u64)) + popcount(pawn_pattern(0u64, 51u64) | push_pattern(0u64, 51u64)) + popcount(pawn_pattern(0u64, 52u64) | push_pattern(0u64, 52u64)) + popcount(pawn_pattern(0u64, 53u64) | push_pattern(0u64, 53u64)) + popcount(pawn_pattern(0u64, 54u64) | push_pattern(0u64, 54u64)) + popcount(pawn_pattern(0u64, 55u64) | push_pattern(0u64, 55u64))
}

/// The captures and pushes of black pawns from the second to the seventh rank.
pub open spec fn black_pawn_total() -> nat {
    popcount(pawn_pattern(1u64, 8u64) | push_pattern(1u64, 8u64)) + popcount(pawn_pattern(1u64, 9u64) | push_pattern(1u64, 9u64)) + popcount(pawn_pattern(1u64, 10u64) | push_pattern(1u64, 10u64)) + popcount(pawn_pattern(1u64, 11u64) | push_pattern(1u64, 11u64)) + popcount(pawn_pattern(1u64, 12u64) | push_pattern(1u64, 12u64)) + popcount(pawn_pattern(1u64, 13u64) | push_pattern(1u64, 13u64)) + popcount(pawn_pattern(1u64, 14u64) | push_pattern(1u64, 14u64)) + popcount(pawn_pattern(1u64, 15u64) | push_pattern(1u64, 15u64)) + popcount(pawn_pattern(1u64, 16u64) | push_pattern(1u64, 16u64)) + popcount(pawn_pattern(1u64, 17u64) | push_pattern(1u64, 17u64)) + popcount(pawn_pattern(1u64, 18u64) | push_pattern(1u64, 18u64)) + popcount(pawn_pattern(1u64, 19u64) | push_pattern(1u64, 19u64)) + popcount(pawn_pattern(1u64, 20u64) | push_pattern(1u64, 20u64)) + popcount(pawn_pattern(1u64, 21u64) | push_pattern(1u64, 21u64)) + popcount(pawn_pattern(1u64, 22u64) | push_pattern(1u64, 22u64)) + popcount(pawn_pattern(1u64, 23u64) | push_pattern(1u64, 23u64)) + popcount(pawn_pattern(1u64, 24u64) | push_pattern(1u64, 24u64)) + popcount(pawn_pattern(1u64, 25u64) | push_pattern(1u64, 25u64)) + popcount(pawn_pattern(1u64, 26u64) | push_pattern(1u64, 26u64)) + popcount(pawn_pattern(1u64, 27u64) | push_pattern(1u64, 27u64)) + popcount(pawn_pattern(1u64, 28u64) | push_pattern(1u64, 28u64)) + popcount(pawn_pattern(1u64, 29u64) | push_pattern(1u64, 29u64)) + popcount(pawn_pattern(1u64, 30u64) | push_pattern(1u64, 30u64)) + popcount(pawn_pattern(1u64, 31u64) | push_pattern(1u64, 31u64)) + popcount(pawn_pattern(1u64, 32u64) | push_pattern(1u64, 32u64)) + popcount(pawn_pattern(1u64, 33u64) | push_pattern(1u64, 33u64)) + popcount(pawn_pattern(1u64, 34u64) | push_pattern(1u64, 34u64)) + popcount(pawn_pattern(1u64, 35u64) | push_pattern(1u64, 35u64)) + popcount(pawn_pattern(1u64, 36u64) | push_pattern(1u64, 36u64)) + popcount(pawn_pattern(1u64, 37u64) | push_pattern(1u64, 37u64)) + popcount(pawn_pattern(1u64, 38u64) | push_pattern(1u64, 38u64)) + popcount(pawn_pattern(1u64, 39u64) | push_pattern(1u64, 39u64)) + popcount(pawn_pattern(1u64, 40u64) | push_pattern(1u64, 40u64)) + popcount(pawn_pattern(1u64, 41u64) | push_pattern(1u64, 41u64)) + popcount(pawn_pattern(1u64, 42u64) | push_pattern(1u64, 42u64)) + popcount(pawn_pattern(1u64, 43u64) | push_pattern(1u64, 43u64)) + popcount(pawn_pattern(1u64, 44u64) | push_pattern(1u64, 44u64)) + popcount(pawn_pattern(1u64, 45u64) | push_pattern(1u64, 45u64)) + popcount(pawn_pattern(1u64, 46u64) | push_pattern(1u64, 46u64)) + popcount(pawn_pattern(1u64, 47u64) | push_pattern(1u64, 47u64)) + popcount(pawn_pattern(1u64, 48u64) | push_pattern(1u64, 48u64)) + popcount(pawn_pattern(1u64, 49u64) | push_pattern(1u64, 49u64)) + popcount(pawn_pattern(1u64, 50u64) | push_pattern(1u64, 50u64)) + popcount(pawn_pattern(1u64, 51u64) | push_pattern(1u64, 51u64)) + popcount(pawn_pattern(1u64, 52u64) | push_pattern(1u64, 52u64)) + popcount(pawn_pattern(1u64, 53u64) | push_pattern(1u64, 53u64)) + popcount(pawn_pattern(1u64, 54u64) | push_pattern(1u64, 54u64)) + popcount(pawn_pattern(1u64, 55u64) | push_pattern(1u64, 55u64))
}

/// How many squares each piece reaches on an empty board, summed over its squares (pawns on the
/// second to seventh rank: captures and the push).
proof fn lemma_pattern_totals()
    by (bit_vector)
    ensures
        knight_total() == 336,
        bishop_total() == 560,
        rook_total() == 896,
        queen_total() == 1456,
        king_total() == 420,
        white_pawn_total() == 132,
        black_pawn_total() == 132,
{
}


/// The squares a piece reaches on an empty board, as one bitboard formula per piece type.
pub open spec fn pattern(pt: nat, c: nat, s: u64) -> u64 {
    let side: u64 = if c == 0 { 0 } else { 1 };
    if pt == 0 {
        pawn_pattern(side, s) | push_pattern(side, s)
    } else if pt == 1 {
        knight_pattern(s)
    } else if pt == 2 {
        bishop_empty(s)
    } else if pt == 3 {
        rook_empty(s)
    } else if pt == 4 {
        rook_empty(s) | bishop_empty(s)
    } else {
        king_pattern(s)
    }
}

/// The empty-board target squares of a piece are those of its formula.
proof fn lemma_target_pattern(pt: nat, c: nat, s: u64)
    requires
        pt < 6,
        c < 2,
        s < 64,
    ensures
        target_set(pt, c, s) == pattern(pt, c, s),
{
    let side: u64 = if c == 0 { 0 } else { 1 };
    assert forall|u: u64| u < 64 implies !#[trigger] bit_set(0u64, u) by {
        lemma_bit_ops(0, 0, u);
    }
    assert forall|t: u64| t < 64 implies #[trigger] bit_set(target_set(pt, c, s), t) == bit_set(pattern(pt, c, s), t) by {
        lemma_empty_board_patterns(side, s, t);
        if pt == 0 {
            lemma_bit_ops(pawn_captures(side, s), pawn_pushes(side, s), t);
            lemma_bit_ops(pawn_pattern(side, s), push_pattern(side, s), t);
            lemma_board_of(|x: u64| pawn_capture(side, s, x), t);
            lemma_board_of(|x: u64| pawn_step(side, s, x), t);
            lemma_pawn_pattern(side, s, t);
        } else if pt == 1 {
            lemma_board_of(|x: u64| knight_jump(s, x), t);
            lemma_knight_pattern(s, t);
        } else if pt == 2 {
            lemma_board_of(|x: u64| bishop_sees(s, x, 0), t);
        } else if pt == 3 {
            lemma_board_of(|x: u64| rook_sees(s, x, 0), t);
        } else if pt == 4 {
            lemma_board_of(|x: u64| rook_sees(s, x, 0) || bishop_sees(s, x, 0), t);
            lemma_bit_ops(rook_empty(s), bishop_empty(s), t);
        } else {
            lemma_board_of(|x: u64| king_step(s, x), t);
            lemma_king_pattern(s, t);
        }
    }
    lemma_bit_ext(target_set(pt, c, s), pattern(pt, c, s));
}

/// The features one square holds for a piece, counted square by square.
pub open spec fn square_bits(pt: nat, c: nat, s: u64) -> nat {
    if pt == 0 && !(8 <= s <= 55) {
        0
    } else {
        popcount(pattern(pt, c, s))
    }
}

/// Each square holds as many features as the formula gives it.
proof fn lemma_square_bits(pt: nat, c: nat)
    requires
        pt < 6,
        c < 2,
    ensures
        forall|s: u64| s < 64 ==> #[trigger] square_count(pt, c, s) == square_bits(pt, c, s),
{
    assert forall|s: u64| s < 64 implies #[trigger] square_count(pt, c, s) == square_bits(pt, c, s) by {
        lemma_target_pattern(pt, c, s);
    }
}


#[verifier::spinoff_prover]
#[verifier::rlimit(80)]
proof fn lemma_white_pawn_offset()
    ensures
        square_offset(0, 0, 64) == white_pawn_total(),
{
    lemma_square_bits(0, 0);
    reveal_with_fuel(square_offset, 65);
}

#[verifier::spinoff_prover]
#[verifier::rlimit(80)]
proof fn lemma_black_pawn_offset()
    ensures
        square_offset(0, 1, 64) == black_pawn_total(),
{
    lemma_square_bits(0, 1);
    reveal_with_fuel(square_offset, 65);
}

#[verifier::spinoff_prover]
#[verifier::rlimit(80)]
proof fn lemma_knight_offset(c: nat)
    requires
        c < 2,
    ensures
        square_offset(1, c, 64) == knight_total(),
{
    lemma_square_bits(1, c);
    reveal_with_fuel(square_offset, 65);
}

#[verifier::spinoff_prover]
#[verifier::rlimit(80)]
proof fn lemma_bishop_offset(c: nat)
    requires
        c < 2,
    ensures
        square_offset(2, c, 64) == bishop_total(),
{
    lemma_square_bits(2, c);
    reveal_with_fuel(square_offset, 65);
}

#[verifier::spinoff_prover]
#[verifier::rlimit(80)]
proof fn lemma_rook_offset(c: nat)
    requires
        c < 2,
    ensures
        square_offset(3, c, 64) == rook_total(),
{
    lemma_square_bits(3, c);
    reveal_with_fuel(square_offset, 65);
}

#[verifier::spinoff_prover]
#[verifier::rlimit(80)]
proof fn lemma_queen_offset(c: nat)
    requires
        c < 2,
    ensures
        square_offset(4, c, 64) == queen_total(),
{
    lemma_square_bits(4, c);
    reveal_with_fuel(square_offset, 65);
}

#[verifier::spinoff_prover]
#[verifier::rlimit(80)]
proof fn lemma_king_offset(c: nat)
    requires
        c < 2,
    ensures
        square_offset(5, c, 64) == king_total(),
{
    lemma_square_bits(5, c);
    reveal_with_fuel(square_offset, 65);
}

/// The threat features number 60720: per coloured piece, its target kinds times the squares
/// its attacks and pushes reach from all its squares, summed over the twelve pieces.
pub proof fn lemma_threat_features_total()
    ensures
        threat_features() == 60720,
{
    lemma_pattern_totals();
    lemma_white_pawn_offset();
    lemma_black_pawn_offset();
    lemma_knight_offset(0);
    lemma_knight_offset(1);
    lemma_bishop_offset(0);
    lemma_bishop_offset(1);
    lemma_rook_offset(0);
    lemma_rook_offset(1);
    lemma_queen_offset(0);
    lemma_queen_offset(1);
    lemma_king_offset(0);
    lemma_king_offset(1);
    reveal_with_fuel(piece_offset, 13);
}

/// The bucketed threat features of one side number 39928: the pawn block, then per piece type
/// its target kinds times the squares its attacks reach from all squares.
pub proof fn lemma_offset_end_total()
    ensures
        offset_end() == 39928,
{
    lemma_pattern_totals();
    lemma_knight_offset(0);
    lemma_bishop_offset(0);
    lemma_rook_offset(0);
    lemma_queen_offset(0);
    lemma_king_offset(0);
}
} // verus!
