//! Threat features: one input per (attacking piece, square, attacked piece, target square),
//! numbered through per-piece offset tables, together with king-bucketed piece-square inputs.
use vstd::prelude::*;
use crate::bitboard::{
    bit_set, popcount, count_below, count_ones, lemma_bit_ops, lemma_count_below_mono,
    lemma_popcount_masked, squares, squares_of, lemma_set_bits_len, lemma_set_bits_complete,
    lemma_count_below_lt_total,
};
use crate::geometry::{
    pawn_step, pawn_capture, pawn_captures, pawn_pushes, knight_attacks, king_attacks,
    bishop_attacks, rook_attacks, queen_attacks, lemma_is_board_of, lemma_board_of, knight_jump,
    king_step, rook_sees, bishop_sees, rank_of, file_of, lemma_mirror_coords,
};
use crate::attacks::{pawn_capture_squares, knight_squares, king_squares};
use crate::slider::{bishop_squares, rook_squares, queen_squares};
use crate::board::{PackedBoard, pieces_of, board_well_formed};

pub use crate::attacks::{Side, Piece, Attacks};

verus! {

pub const PAWN_TYPE: usize = 0;
pub const KNIGHT_TYPE: usize = 1;
pub const BISHOP_TYPE: usize = 2;
pub const ROOK_TYPE: usize = 3;
pub const QUEEN_TYPE: usize = 4;
pub const KING_TYPE: usize = 5;

/// How many target kinds (attacked piece and colour) each attacking piece has features for.
pub open spec fn num_valid_targets(id: nat) -> nat {
    if id <= 1 {
        6
    } else if id <= 3 {
        10
    } else if id <= 7 {
        8
    } else if id <= 9 {
        10
    } else {
        0
    }
}

fn num_valid_targets_of(id: usize) -> (r: usize)
    requires
        id < 12,
    ensures
        r == num_valid_targets(id as nat),
{
    if id <= 1 {
        6
    } else if id <= 3 {
        10
    } else if id <= 7 {
        8
    } else if id <= 9 {
        10
    } else {
        0
    }
}

/// The slot of an attacked piece type among the targets of an attacking piece type, or -1
/// where that pair has no feature.
pub open spec fn target_slot(attacker: nat, attacked: nat) -> int {
    if attacker == 0 {
        if attacked == 0 { 0 } else if attacked == 1 { 1 } else if attacked == 3 { 2 } else { -1 }
    } else if attacker == 1 {
        if attacked <= 4 { attacked as int } else { -1 }
    } else if attacker == 2 || attacker == 3 {
        if attacked <= 3 { attacked as int } else { -1 }
    } else if attacker == 4 {
        if attacked <= 4 { attacked as int } else { -1 }
    } else {
        -1
    }
}

fn target_map(attacker: usize, attacked: usize) -> (r: i32)
    requires
        attacker < 6,
        attacked < 6,
    ensures
        r == target_slot(attacker as nat, attacked as nat),
{
    if attacker == 0 {
        if attacked == 0 { 0 } else if attacked == 1 { 1 } else if attacked == 3 { 2 } else { -1 }
    } else if attacker == 1 {
        if attacked <= 4 { attacked as i32 } else { -1 }
    } else if attacker == 2 || attacker == 3 {
        if attacked <= 3 { attacked as i32 } else { -1 }
    } else if attacker == 4 {
        if attacked <= 4 { attacked as i32 } else { -1 }
    } else {
        -1
    }
}

/// The index of a coloured piece type in the offset table.
pub fn piece_id(piece_type: usize, color: usize) -> (r: usize)
    requires
        piece_type < 6,
        color < 2,
    ensures
        r == 2 * piece_type + color,
{
    2 * piece_type + color
}

/// The squares a pawn of `color` on `sq` captures on.
pub fn pawn_attacks_from(sq: usize, color: usize) -> (r: u64)
    requires
        sq < 64,
    ensures
        r == pawn_captures(if color == 0 { 0u64 } else { 1u64 }, sq as u64),
{
    let r = pawn_capture_squares(sq, if color == Side::WHITE { 0 } else { 1 });
    r
}

/// The square a pawn of `color` on `sq` pushes to, if it is on the board.
pub fn pawn_push_from(sq: usize, color: usize) -> (r: u64)
    requires
        sq < 64,
    ensures
        r == pawn_pushes(if color == 0 { 0u64 } else { 1u64 }, sq as u64),
{
    let side: u64 = if color == Side::WHITE { 0 } else { 1 };
    let r = if color == Side::WHITE {
        if sq <= 55 {
            1u64 << (sq + 8)
        } else {
            0
        }
    } else if sq >= 8 {
        1u64 << (sq - 8)
    } else {
        0
    };
    proof {
        assert forall|t: u64| t < 64 implies #[trigger] bit_set(r, t) == pawn_step(side, sq as u64, t) by {
            lemma_bit_ops(0, (sq + 8) as u64, t);
            lemma_bit_ops(0, (sq - 8) as u64, t);
        }
        lemma_is_board_of(r, |t: u64| pawn_step(side, sq as u64, t));
    }
    r
}

/// The squares a piece of a non-pawn type attacks on an empty board.
pub open spec fn pseudo_attack_set(piece_type: nat, s: u64) -> u64 {
    if piece_type == 1 {
        knight_attacks(s)
    } else if piece_type == 2 {
        bishop_attacks(s, 0)
    } else if piece_type == 3 {
        rook_attacks(s, 0)
    } else if piece_type == 4 {
        queen_attacks(s, 0)
    } else if piece_type == 5 {
        king_attacks(s)
    } else {
        0
    }
}

/// The empty-board attacks of a piece type.
pub fn pseudo_attacks(piece_type: usize, sq: usize) -> (r: u64)
    requires
        sq < 64,
    ensures
        r == pseudo_attack_set(piece_type as nat, sq as u64),
{
    if piece_type == KNIGHT_TYPE {
        knight_squares(sq)
    } else if piece_type == BISHOP_TYPE {
        bishop_squares(sq, 0)
    } else if piece_type == ROOK_TYPE {
        rook_squares(sq, 0)
    } else if piece_type == QUEEN_TYPE {
        queen_squares(sq, 0)
    } else if piece_type == KING_TYPE {
        king_squares(sq)
    } else {
        0
    }
}

/// The squares that carry features for a piece of `piece_type` and `color` on `s`: captures and
/// the push for pawns, empty-board attacks otherwise.
pub open spec fn target_set(piece_type: nat, color: nat, s: u64) -> u64 {
    if piece_type == 0 {
        pawn_captures(if color == 0 { 0u64 } else { 1u64 }, s) | pawn_pushes(
            if color == 0 { 0u64 } else { 1u64 },
            s,
        )
    } else {
        pseudo_attack_set(piece_type, s)
    }
}

/// How many features one square holds for a piece; pawns only on ranks 2 to 7.
pub open spec fn square_count(piece_type: nat, color: nat, s: u64) -> nat {
    if piece_type == 0 && !(8 <= s <= 55) {
        0
    } else {
        popcount(target_set(piece_type, color, s))
    }
}

/// Features of the squares below `n` for a piece.
pub open spec fn square_offset(piece_type: nat, color: nat, n: nat) -> nat
    decreases n,
{
    if n == 0 {
        0
    } else {
        square_offset(piece_type, color, (n - 1) as nat) + square_count(
            piece_type,
            color,
            (n - 1) as u64,
        )
    }
}

/// The first feature of the `k`-th piece in table order: white pawn to king, then black.
pub open spec fn piece_offset(k: nat) -> nat
    decreases k,
{
    if k == 0 {
        0
    } else {
        let j = (k - 1) as nat;
        let pt = j % 6;
        let color = j / 6;
        piece_offset(j) + num_valid_targets(2 * pt + color) * square_offset(pt, color, 64)
    }
}

/// The number of threat features.
pub open spec fn threat_features() -> nat {
    piece_offset(12)
}

pub proof fn lemma_square_offset_bound(pt: nat, color: nat, n: nat)
    requires
        n <= 64,
    ensures
        square_offset(pt, color, n) <= 64 * n,
    decreases n,
{
    if n > 0 {
        lemma_square_offset_bound(pt, color, (n - 1) as nat);
        lemma_count_below_mono(target_set(pt, color, (n - 1) as u64), 64, 64);
    }
}

pub proof fn lemma_square_offset_mono(pt: nat, color: nat, m: nat, n: nat)
    requires
        m <= n,
    ensures
        square_offset(pt, color, m) <= square_offset(pt, color, n),
    decreases n,
{
    if m < n {
        lemma_square_offset_mono(pt, color, m, (n - 1) as nat);
    }
}

pub proof fn lemma_piece_offset_bound(k: nat)
    requires
        k <= 12,
    ensures
        piece_offset(k) <= k * 40960,
    decreases k,
{
    if k > 0 {
        let j = (k - 1) as nat;
        lemma_piece_offset_bound(j);
        lemma_square_offset_bound(j % 6, j / 6, 64);
        assert(num_valid_targets(2 * (j % 6) + j / 6) * square_offset(j % 6, j / 6, 64) <= 10 * 4096)
            by (nonlinear_arith)
            requires
                num_valid_targets(2 * (j % 6) + j / 6) <= 10,
                square_offset(j % 6, j / 6, 64) <= 4096;
    }
}

/// Per coloured piece (by `piece_id`): the first feature of each square (entries 0 to 63), the
/// features per target kind (entry 64) and the first feature of the piece (entry 65); and the
/// number of threat features.
pub struct ThreatFeatureCalculation {
    pub table: Vec<Vec<usize>>,
    pub total_features: usize,
}

impl ThreatFeatureCalculation {
    /// The table holds the offsets that `square_offset` and `piece_offset` define.
    pub open spec fn wf(&self) -> bool {
        &&& self.table@.len() == 12
        &&& forall|id: int| 0 <= id < 12 ==> (#[trigger] self.table@[id])@.len() == 66
        &&& forall|pt: nat, color: nat, i: int|
            pt < 6 && color < 2 && 0 <= i <= 64 ==> #[trigger] self.table@[(2 * pt + color) as int]@[i]
                == square_offset(pt, color, i as nat)
        &&& forall|pt: nat, color: nat|
            pt < 6 && color < 2 ==> #[trigger] self.table@[(2 * pt + color) as int]@[65] == piece_offset(
                6 * color + pt,
            )
        &&& self.total_features == threat_features()
    }
}

/// The features of one square for a piece.
fn square_features(piece_type: usize, color: usize, from: usize) -> (r: usize)
    requires
        piece_type < 6,
        color < 2,
        from < 64,
    ensures
        r == square_count(piece_type as nat, color as nat, from as u64),
{
    if piece_type == PAWN_TYPE {
        if from >= 8 && from <= 55 {
            count_ones(pawn_attacks_from(from, color) | pawn_push_from(from, color)) as usize
        } else {
            0
        }
    } else {
        count_ones(pseudo_attacks(piece_type, from)) as usize
    }
}

/// Builds the offset table.
pub fn threat_feature_calculation() -> (c: ThreatFeatureCalculation)
    ensures
        c.wf(),
{
    let mut table: Vec<Vec<usize>> = Vec::new();
    let mut n: usize = 0;
    while n < 12
        invariant
            n <= 12,
            table@.len() == n,
        decreases 12 - n,
    {
        table.push(Vec::new());
        n += 1;
    }
    let mut offset: usize = 0;
    let mut color: usize = 0;
    while color < 2
        invariant
            color <= 2,
            table@.len() == 12,
            offset == piece_offset(6 * color as nat),
            forall|pt: nat, c: nat| pt < 6 && c < color ==> {
                &&& (#[trigger] table@[(2 * pt + c) as int])@.len() == 66
                &&& forall|i: int| 0 <= i <= 64 ==> #[trigger] table@[(2 * pt + c) as int]@[i] == square_offset(pt, c, i as nat)
                &&& table@[(2 * pt + c) as int]@[65] == piece_offset(6 * c + pt)
            },
        decreases 2 - color,
    {
        let mut piece_type: usize = 0;
        while piece_type < 6
            invariant
                color < 2,
                piece_type <= 6,
                table@.len() == 12,
                offset == piece_offset((6 * color + piece_type) as nat),
                forall|pt: nat, c: nat| (pt < 6 && c < color) || (pt < piece_type && c == color) ==> {
                    &&& (#[trigger] table@[(2 * pt + c) as int])@.len() == 66
                    &&& forall|i: int| 0 <= i <= 64 ==> #[trigger] table@[(2 * pt + c) as int]@[i] == square_offset(pt, c, i as nat)
                    &&& table@[(2 * pt + c) as int]@[65] == piece_offset(6 * c + pt)
                },
            decreases 6 - piece_type,
        {
            let piece = piece_id(piece_type, color);
            let mut row: Vec<usize> = Vec::new();
            let mut sq_offset: usize = 0;
            let mut from: usize = 0;
            while from < 64
                invariant
                    piece_type < 6,
                    color < 2,
                    from <= 64,
                    row@.len() == from,
                    sq_offset == square_offset(piece_type as nat, color as nat, from as nat),
                    forall|i: int| 0 <= i < from ==> #[trigger] row@[i] == square_offset(piece_type as nat, color as nat, i as nat),
                decreases 64 - from,
            {
                row.push(sq_offset);
                proof {
                    lemma_square_offset_bound(piece_type as nat, color as nat, (from + 1) as nat);
                }
                sq_offset += square_features(piece_type, color, from);
                from += 1;
            }
            row.push(sq_offset);
            row.push(offset);
            let ghost old_table = table@;
            table[piece] = row;
            proof {
                lemma_square_offset_bound(piece_type as nat, color as nat, 64);
                lemma_piece_offset_bound((6 * color + piece_type + 1) as nat);
                let k = (6 * color + piece_type) as nat;
                assert(k % 6 == piece_type && k / 6 == color);
                assert forall|pt: nat, c: nat| (pt < 6 && c < color) || (pt < piece_type + 1 && c == color) implies {
                    &&& (#[trigger] table@[(2 * pt + c) as int])@.len() == 66
                    &&& forall|i: int| 0 <= i <= 64 ==> #[trigger] table@[(2 * pt + c) as int]@[i] == square_offset(pt, c, i as nat)
                    &&& table@[(2 * pt + c) as int]@[65] == piece_offset(6 * c + pt)
                } by {
                    if pt == piece_type && c == color {
                    } else {
                        assert(2 * pt + c != piece);
                        assert(table@[(2 * pt + c) as int] == old_table[(2 * pt + c) as int]);
                    }
                }
            }
            let nvt = num_valid_targets_of(piece);
            proof {
                assert(nvt * sq_offset <= 40960) by (nonlinear_arith)
                    requires nvt <= 10, sq_offset <= 4096;
            }
            offset += nvt * sq_offset;
            piece_type += 1;
        }
        color += 1;
    }
    proof {
        lemma_piece_offset_bound(12);
        assert forall|id: int| 0 <= id < 12 implies (#[trigger] table@[id])@.len() == 66 by {
            let pt = (id / 2) as nat;
            let c = (id % 2) as nat;
            assert(table@[(2 * pt + c) as int]@.len() == 66);
        }
    }
    ThreatFeatureCalculation { table, total_features: offset }
}

/// The square mirror that a perspective applies: files mirrored when its king stands on the
/// e-to-h files, ranks mirrored for black.
pub open spec fn orientation(perspective: nat, ksq: nat) -> u64 {
    (if ksq % 8 < 4 { 0u64 } else { 7u64 }) ^ (if perspective == 1 { 56u64 } else { 0u64 })
}

fn orient_mask(perspective: usize, ksq: usize) -> (r: usize)
    ensures
        r as u64 == orientation(perspective as nat, ksq as nat),
        r < 64,
{
    let horizontal: usize = if ksq % 8 < 4 { 0 } else { 7 };
    let vertical: usize = if perspective == Side::BLACK { 56 } else { 0 };
    let r = horizontal ^ vertical;
    proof {
        assert(0usize ^ 56usize == 56usize && 7usize ^ 56usize == 63usize && 0usize ^ 0usize == 0usize && 7usize ^ 0usize == 7usize) by (bit_vector);
        assert(0u64 ^ 56u64 == 56u64 && 7u64 ^ 56u64 == 63u64 && 0u64 ^ 0u64 == 0u64 && 7u64 ^ 0u64 == 7u64) by (bit_vector);
    }
    r
}

/// The colour seen from a perspective: black sees the colours swapped.
pub open spec fn relative_color(perspective: nat, color: nat) -> nat {
    if perspective == 1 { (1 - color) as nat } else { color }
}

/// The feature of a threat of `attacker` (of `attacker_color`, on `from`) against `attacked`
/// (of `attacked_color`, on `to`), seen from `perspective` with its king on `ksq`; `None` for
/// pairs without a feature and for the second of two mirrored threats between equal pieces.
pub open spec fn threat_feature(
    perspective: nat,
    attacker_color: nat,
    attacker: nat,
    from: u64,
    to: u64,
    attacked_color: nat,
    attacked: nat,
    ksq: nat,
) -> Option<nat> {
    let enemy = attacker_color != attacked_color;
    let o = orientation(perspective, ksq);
    let f = from ^ o;
    let t = to ^ o;
    let ac = relative_color(perspective, attacker_color);
    let dc = relative_color(perspective, attacked_color);
    let at = (attacker - 2) as nat;
    let dt = (attacked - 2) as nat;
    let slot = target_slot(at, dt);
    if slot < 0 || (at == dt && (enemy || at != 0) && f < t) {
        None
    } else {
        let id = 2 * at + ac;
        let below = count_below(target_set(at, ac, f), t as nat);
        let target_offset = dc * (num_valid_targets(id) / 2) + slot as nat;
        Some(
            piece_offset(6 * ac + at) + target_offset * square_offset(at, ac, 64) + square_offset(
                at,
                ac,
                f as nat,
            ) + below,
        )
    }
}

/// Mirroring the files of both squares and of the king changes no threat feature; and black's
/// view of a threat is white's view of the threat with the colours swapped and the ranks
/// mirrored.
pub proof fn lemma_threat_feature_mirrored(
    perspective: nat,
    attacker_color: nat,
    attacker: nat,
    from: u64,
    to: u64,
    attacked_color: nat,
    attacked: nat,
    ksq: u64,
)
    requires
        attacker_color < 2,
        attacked_color < 2,
        from < 64,
        to < 64,
        ksq < 64,
    ensures
        threat_feature(perspective, attacker_color, attacker, from ^ 7, to ^ 7, attacked_color, attacked, (ksq ^ 7) as nat)
            == threat_feature(perspective, attacker_color, attacker, from, to, attacked_color, attacked, ksq as nat),
        threat_feature(1, attacker_color, attacker, from, to, attacked_color, attacked, ksq as nat)
            == threat_feature(0, (1 - attacker_color) as nat, attacker, from ^ 56, to ^ 56, (1 - attacked_color) as nat, attacked, (ksq ^ 56) as nat),
{
    lemma_mirror_coords(ksq, 7);
    lemma_mirror_coords(ksq, 56);
    let h: u64 = if ksq % 8 < 4 { 0 } else { 7 };
    let v: u64 = if perspective == 1 { 56 } else { 0 };
    assert(orientation(perspective, ksq as nat) == h ^ v);
    assert(((from ^ 7) ^ ((h ^ 7) ^ v)) == from ^ (h ^ v) && ((to ^ 7) ^ ((h ^ 7) ^ v)) == to ^ (h ^ v)
        && ((from ^ 56) ^ (h ^ 0)) == from ^ (h ^ 56) && ((to ^ 56) ^ (h ^ 0)) == to ^ (h ^ 56)
        && 0u64 ^ 7u64 == 7u64 && 7u64 ^ 7u64 == 0u64) by (bit_vector);
    assert(orientation(perspective, (ksq ^ 7) as nat) == (h ^ 7) ^ v);
}

/// The piece types whose pieces a piece type threatens with a feature: a pawn threatens pawns,
/// knights and rooks; knights and queens every piece but a king; bishops and rooks pawns,
/// knights, bishops and rooks; a king threatens nothing with a feature.
pub open spec fn threat_target(attacker: nat, attacked: nat) -> bool {
    &&& attacked < 5
    &&& attacker < 5
    &&& (attacker == 0 ==> attacked == 0 || attacked == 1 || attacked == 3)
    &&& (attacker == 2 || attacker == 3 ==> attacked <= 3)
}

/// How many piece types below `attacked` the attacker type threatens with a feature.
pub open spec fn targets_below(attacker: nat, attacked: nat) -> nat
    decreases attacked,
{
    if attacked == 0 {
        0
    } else {
        targets_below(attacker, (attacked - 1) as nat) + if threat_target(attacker, (attacked - 1) as nat) {
            1nat
        } else {
            0nat
        }
    }
}

/// Where a threat's feature lies: a threat has a feature exactly when the attacked piece's type
/// is one the attacker's type threatens, unless it is the second (in the order the perspective
/// sees the squares) of two equal pieces threatening each other. The feature then counts, in
/// the attacker's block, first the target kinds of the attacker's own colour (relative to the
/// perspective) and then the other colour's, each kind in the order of the piece types, every
/// kind holding the attacker's squares' targets in square order.
pub proof fn lemma_threat_feature_layout(
    perspective: nat,
    attacker_color: nat,
    attacker: nat,
    from: u64,
    to: u64,
    attacked_color: nat,
    attacked: nat,
    ksq: nat,
)
    requires
        attacker_color < 2,
        attacked_color < 2,
        2 <= attacker <= 7,
        2 <= attacked <= 7,
    ensures
        ({
            let at = (attacker - 2) as nat;
            let dt = (attacked - 2) as nat;
            let o = orientation(perspective, ksq);
            let f = from ^ o;
            let t = to ^ o;
            let c = relative_color(perspective, attacker_color);
            let dc = relative_color(perspective, attacked_color);
            let r = threat_feature(perspective, attacker_color, attacker, from, to, attacked_color, attacked, ksq);
            &&& r is Some <==> (threat_target(at, dt) && !(at == dt && (attacker_color != attacked_color || at != 0) && f < t))
            &&& r is Some ==> r->0 == piece_offset(6 * c + at) + (dc * targets_below(at, 6) + targets_below(at, dt))
                * square_offset(at, c, 64) + square_offset(at, c, f as nat) + count_below(target_set(at, c, f), t as nat)
        }),
{
    reveal_with_fuel(targets_below, 7);
    let at = (attacker - 2) as nat;
    let dt = (attacked - 2) as nat;
    let c = relative_color(perspective, attacker_color);
    assert(target_slot(at, dt) >= 0 <==> threat_target(at, dt));
    assert(threat_target(at, dt) ==> target_slot(at, dt) == targets_below(at, dt));
    assert(num_valid_targets(2 * at + c) / 2 == targets_below(at, 6));
}

/// The inputs on which `threat_index` stays within the feature range.
pub open spec fn threat_in_range(
    perspective: nat,
    attacker_color: nat,
    attacker: nat,
    from: u64,
    to: u64,
    attacked_color: nat,
    attacked: nat,
    ksq: nat,
) -> bool {
    match threat_feature(perspective, attacker_color, attacker, from, to, attacked_color, attacked, ksq) {
        Some(v) => v < threat_features(),
        None => true,
    }
}

/// The feature of a threat of `attacker` (of `attacker_color`, on `from`) against `attacked` (of
/// `attacked_color`, on `to`), seen from `perspective` with its king on `ksq`; `None` for pairs
/// without a feature and for the second of two mirrored threats between equal pieces.
pub fn threat_index(
    calc: &ThreatFeatureCalculation,
    perspective: usize,
    attacker_color: usize,
    attacker: usize,
    from: usize,
    to: usize,
    attacked_color: usize,
    attacked: usize,
    ksq: usize,
) -> (r: Option<usize>)
    requires
        calc.wf(),
        attacker_color < 2,
        attacked_color < 2,
        2 <= attacker <= 7,
        2 <= attacked <= 7,
        from < 64,
        to < 64,
        threat_in_range(perspective as nat, attacker_color as nat, attacker as nat, from as u64, to as u64, attacked_color as nat, attacked as nat, ksq as nat),
    ensures
        (match threat_feature(perspective as nat, attacker_color as nat, attacker as nat, from as u64, to as u64, attacked_color as nat, attacked as nat, ksq as nat) {
            Some(v) => r == Some(v as usize),
            None => r is None,
        }),
        r matches Some(v) ==> v < calc.total_features,
{
    let mut attacker_color = attacker_color;
    let mut attacked_color = attacked_color;
    let mut from = from;
    let mut to = to;
    let enemy = attacker_color != attacked_color;
    let orientation = orient_mask(perspective, ksq);
    proof {
        assert((from ^ orientation) < 64 && (to ^ orientation) < 64 && (from ^ orientation) as u64 == (from as u64) ^ (orientation as u64)
            && (to ^ orientation) as u64 == (to as u64) ^ (orientation as u64)) by (bit_vector)
            requires from < 64usize, to < 64usize, orientation < 64usize;
    }
    from ^= orientation;
    to ^= orientation;

    if perspective == Side::BLACK {
        attacker_color = 1 - attacker_color;
        attacked_color = 1 - attacked_color;
    }

    let attacker_type = attacker - 2;
    let attacked_type = attacked - 2;
    let mapped_target = target_map(attacker_type, attacked_type);

    if mapped_target < 0
        || (attacker_type == attacked_type && (enemy || attacker_type != PAWN_TYPE) && from < to)
    {
        return None;
    }

    let attacker_id = piece_id(attacker_type, attacker_color);
    let attacks = if attacker_type == PAWN_TYPE {
        pawn_attacks_from(from, attacker_color) | pawn_push_from(from, attacker_color)
    } else {
        pseudo_attacks(attacker_type, from)
    };
    proof {
        lemma_popcount_masked(attacks, to as u64);
        lemma_count_below_mono(attacks, to as nat, 64);
        lemma_square_offset_bound(attacker_type as nat, attacker_color as nat, 64);
        lemma_square_offset_bound(attacker_type as nat, attacker_color as nat, from as nat);
        lemma_piece_offset_bound((6 * attacker_color + attacker_type) as nat);
        assert(1u64 << (to as u64) >= 1) by (bit_vector)
            requires to < 64usize;
    }
    let below_to = count_ones(attacks & ((1u64 << to) - 1)) as usize;
    let nvt = num_valid_targets_of(attacker_id);
    proof {
        assert(mapped_target <= 4);
        assert(attacked_color * (nvt / 2) <= 5) by (nonlinear_arith)
            requires attacked_color < 2, nvt <= 10;
    }
    let target_offset = attacked_color * (nvt / 2) + mapped_target as usize;
    let row = &calc.table[attacker_id];
    proof {
        assert(calc.table@[(2 * (attacker_type as nat) + (attacker_color as nat)) as int]@.len() == 66);
        assert(target_offset <= 9);
        assert(target_offset * row@[64] <= 9 * 4096) by (nonlinear_arith)
            requires target_offset <= 9, row@[64] <= 4096;
    }
    let threat = row[65] + target_offset * row[64] + row[from] + below_to;
    Some(threat)
}

/// The colour of the `j`-th (colour, piece) pair: white pawn to king, then black.
pub open spec fn pair_side(j: nat) -> nat {
    j / 6
}

pub open spec fn pair_piece(j: nat) -> nat {
    2 + j % 6
}

/// The last of the first `k` (colour, piece) pairs whose bitboards both hold `sq`.
pub open spec fn last_owner(bbs: Seq<u64>, sq: u64, k: nat) -> Option<nat>
    decreases k,
{
    if k == 0 {
        None
    } else {
        let j = (k - 1) as nat;
        if bit_set(bbs[pair_side(j) as int] & bbs[pair_piece(j) as int], sq) {
            Some(j)
        } else {
            last_owner(bbs, sq, j)
        }
    }
}

/// The piece that the bitboards place on `sq` (the last of white pawn to black king that
/// claims it), `usize::MAX` for none.
pub open spec fn piece_on(bbs: Seq<u64>, sq: u64) -> nat {
    match last_owner(bbs, sq, 12) {
        Some(j) => pair_piece(j),
        None => usize::MAX as nat,
    }
}

pub open spec fn color_on(bbs: Seq<u64>, sq: u64) -> nat {
    match last_owner(bbs, sq, 12) {
        Some(j) => pair_side(j),
        None => usize::MAX as nat,
    }
}

/// Fills `piece_on` and `color_on` for each square from the bitboards.
pub(crate) fn owners(bbs: &[u64; 8]) -> (r: (Vec<usize>, Vec<usize>))
    ensures
        r.0@.len() == 64,
        r.1@.len() == 64,
        forall|sq: int| 0 <= sq < 64 ==> #[trigger] r.0@[sq] == piece_on(bbs@, sq as u64),
        forall|sq: int| 0 <= sq < 64 ==> #[trigger] r.1@[sq] == color_on(bbs@, sq as u64),
{
    let mut piece_on: Vec<usize> = Vec::new();
    let mut color_on: Vec<usize> = Vec::new();
    let mut n: usize = 0;
    while n < 64
        invariant
            n <= 64,
            piece_on@.len() == n,
            color_on@.len() == n,
            forall|sq: int| 0 <= sq < n ==> #[trigger] piece_on@[sq] == usize::MAX,
            forall|sq: int| 0 <= sq < n ==> #[trigger] color_on@[sq] == usize::MAX,
        decreases 64 - n,
    {
        piece_on.push(usize::MAX);
        color_on.push(usize::MAX);
        n += 1;
    }
    let mut j: usize = 0;
    while j < 12
        invariant
            j <= 12,
            piece_on@.len() == 64,
            color_on@.len() == 64,
            forall|sq: int| 0 <= sq < 64 ==> #[trigger] piece_on@[sq] == match last_owner(bbs@, sq as u64, j as nat) {
                Some(k) => pair_piece(k),
                None => usize::MAX as nat,
            },
            forall|sq: int| 0 <= sq < 64 ==> #[trigger] color_on@[sq] == match last_owner(bbs@, sq as u64, j as nat) {
                Some(k) => pair_side(k),
                None => usize::MAX as nat,
            },
        decreases 12 - j,
    {
        let side = j / 6;
        let piece = 2 + j % 6;
        let sqs = squares(bbs[side] & bbs[piece]);
        let ghost old_piece = piece_on@;
        let ghost old_color = color_on@;
        proof {
            lemma_set_bits_len(bbs[side as int] & bbs[piece as int], 64);
        }
        let mut i: usize = 0;
        while i < sqs.len()
            invariant
                sqs@ == squares_of(bbs[side as int] & bbs[piece as int]),
                i <= sqs@.len(),
                side == pair_side(j as nat),
                piece == pair_piece(j as nat),
                j < 12,
                piece_on@.len() == 64,
                color_on@.len() == 64,
                old_piece.len() == 64,
                old_color.len() == 64,
                forall|k: int| 0 <= k < sqs@.len() ==> #[trigger] sqs@[k] < 64,
                forall|sq: int| 0 <= sq < 64 ==> #[trigger] piece_on@[sq] == if sqs@.take(i as int).contains(sq as usize) {
                    piece
                } else {
                    old_piece[sq]
                },
                forall|sq: int| 0 <= sq < 64 ==> #[trigger] color_on@[sq] == if sqs@.take(i as int).contains(sq as usize) {
                    side
                } else {
                    old_color[sq]
                },
            decreases sqs@.len() - i,
        {
            let sq = sqs[i];
            piece_on[sq] = piece;
            color_on[sq] = side;
            proof {
                assert(sqs@.take(i + 1) == sqs@.take(i as int).push(sq));
                assert forall|x: int| 0 <= x < 64 implies #[trigger] piece_on@[x] == if sqs@.take(i + 1).contains(x as usize) {
                    piece
                } else {
                    old_piece[x]
                } by {
                    if x == sq {
                        assert(sqs@.take(i + 1).last() == sq);
                    } else {
                        assert(sqs@.take(i + 1).contains(x as usize) == sqs@.take(i as int).contains(x as usize));
                    }
                }
                assert forall|x: int| 0 <= x < 64 implies #[trigger] color_on@[x] == if sqs@.take(i + 1).contains(x as usize) {
                    side
                } else {
                    old_color[x]
                } by {
                    if x == sq {
                        assert(sqs@.take(i + 1).last() == sq);
                    } else {
                        assert(sqs@.take(i + 1).contains(x as usize) == sqs@.take(i as int).contains(x as usize));
                    }
                }
            }
            i += 1;
        }
        proof {
            assert(sqs@.take(sqs@.len() as int) == sqs@);
            let b = bbs[side as int] & bbs[piece as int];
            assert forall|x: int| 0 <= x < 64 implies #[trigger] sqs@.contains(x as usize) == bit_set(b, x as u64) by {
                if bit_set(b, x as u64) {
                    lemma_set_bits_complete(b, 64, x as u64);
                }
                if sqs@.contains(x as usize) {
                    let k = choose|k: int| 0 <= k < sqs@.len() && #[trigger] sqs@[k] == x as usize;
                    assert(bit_set(b, sqs@[k] as u64));
                }
            }
        }
        j += 1;
    }
    (piece_on, color_on)
}

/// The squares a piece (by bitboard index) on `from` attacks through the occupancy `occ`.
pub open spec fn piece_attack_set(piece: nat, from: u64, occ: u64) -> u64 {
    if piece == 3 {
        knight_attacks(from)
    } else if piece == 4 {
        bishop_attacks(from, occ)
    } else if piece == 5 {
        rook_attacks(from, occ)
    } else if piece == 6 {
        queen_attacks(from, occ)
    } else if piece == 7 {
        king_attacks(from)
    } else {
        0
    }
}

/// The features of the threats of one piece against the squares `tos`, in order.
pub open spec fn threats_to(
    bbs: Seq<u64>,
    perspective: nat,
    ksq: nat,
    side: nat,
    piece: nat,
    from: u64,
    tos: Seq<usize>,
) -> Seq<usize>
    decreases tos.len(),
{
    if tos.len() == 0 {
        Seq::empty()
    } else {
        let prev = threats_to(bbs, perspective, ksq, side, piece, from, tos.drop_last());
        let to = tos.last() as u64;
        match threat_feature(
            perspective,
            side,
            piece,
            from,
            to,
            color_on(bbs, to),
            piece_on(bbs, to),
            ksq,
        ) {
            Some(v) => prev.push(v as usize),
            None => prev,
        }
    }
}

/// The occupied squares that a piece on `from` threatens: pawn captures then the pawn push
/// (onto a pawn), or the attacks of other pieces.
pub open spec fn threatened(bbs: Seq<u64>, side: nat, piece: nat, from: u64) -> Seq<Seq<usize>> {
    let occ = bbs[0] | bbs[1];
    if piece == 2 {
        seq![
            squares_of(pawn_captures(side as u64, from) & occ),
            squares_of(pawn_pushes(side as u64, from) & bbs[2]),
        ]
    } else {
        seq![squares_of(piece_attack_set(piece, from, occ) & occ)]
    }
}

pub open spec fn threat_lists(
    bbs: Seq<u64>,
    perspective: nat,
    ksq: nat,
    side: nat,
    piece: nat,
    from: u64,
    lists: Seq<Seq<usize>>,
) -> Seq<usize>
    decreases lists.len(),
{
    if lists.len() == 0 {
        Seq::empty()
    } else {
        threat_lists(bbs, perspective, ksq, side, piece, from, lists.drop_last()) + threats_to(
            bbs,
            perspective,
            ksq,
            side,
            piece,
            from,
            lists.last(),
        )
    }
}

/// The features of the threats of a piece on `from`.
pub open spec fn square_threats(
    bbs: Seq<u64>,
    perspective: nat,
    ksq: nat,
    side: nat,
    piece: nat,
    from: u64,
) -> Seq<usize> {
    threat_lists(bbs, perspective, ksq, side, piece, from, threatened(bbs, side, piece, from))
}

/// The features of the threats of the pieces on the squares `froms`.
pub open spec fn piece_threats(
    bbs: Seq<u64>,
    perspective: nat,
    ksq: nat,
    side: nat,
    piece: nat,
    froms: Seq<usize>,
) -> Seq<usize>
    decreases froms.len(),
{
    if froms.len() == 0 {
        Seq::empty()
    } else {
        piece_threats(bbs, perspective, ksq, side, piece, froms.drop_last()) + square_threats(
            bbs,
            perspective,
            ksq,
            side,
            piece,
            froms.last() as u64,
        )
    }
}

/// The features of the threats of the first `n` piece types (pawn first) of `side`.
pub open spec fn side_threats(bbs: Seq<u64>, perspective: nat, ksq: nat, side: nat, n: nat) -> Seq<
    usize,
>
    decreases n,
{
    if n == 0 {
        Seq::empty()
    } else {
        let piece = (2 + n - 1) as nat;
        side_threats(bbs, perspective, ksq, side, (n - 1) as nat) + piece_threats(
            bbs,
            perspective,
            ksq,
            side,
            piece,
            squares_of(bbs[side as int] & bbs[piece as int]),
        )
    }
}

/// The colour whose threats come first: white for the white perspective, black otherwise.
pub open spec fn first_side(perspective: nat) -> nat {
    if perspective == 0 { 0 } else { 1 }
}

/// The features of all threats on the board `bbs` (white, black, pawn to king bitboards),
/// seen from `perspective` with its king on `ksq`.
pub open spec fn full_threats(bbs: Seq<u64>, perspective: nat, ksq: nat) -> Seq<usize> {
    side_threats(bbs, perspective, ksq, first_side(perspective), 6) + side_threats(
        bbs,
        perspective,
        ksq,
        (1 - first_side(perspective)) as nat,
        6,
    )
}

/// Every occupied square, and every square of the pawn board, holds a piece of some colour.
pub open spec fn board_covered(bbs: Seq<u64>) -> bool {
    forall|sq: u64| sq < 64 && bit_set(bbs[0] | bbs[1] | bbs[2], sq) ==> #[trigger] last_owner(bbs, sq, 12) is Some
}

/// Every square that a piece on the board threatens holds a piece of some colour.
pub open spec fn threats_covered(bbs: Seq<u64>) -> bool {
    forall|side: nat, piece: nat, from: u64, l: int, k: int|
        side < 2 && 2 <= piece <= 7 && from < 64 && bit_set(bbs[side as int] & bbs[piece as int], from)
            && 0 <= l < threatened(bbs, side, piece, from).len() && 0 <= k < threatened(
            bbs,
            side,
            piece,
            from,
        )[l].len() ==> last_owner(bbs, #[trigger] threatened(bbs, side, piece, from)[l][k] as u64, 12) is Some
}

/// Every threat on the board stays within the feature range.
pub open spec fn threats_in_range(bbs: Seq<u64>, perspective: nat, ksq: nat) -> bool {
    forall|side: nat, piece: nat, from: u64, l: int, k: int|
        side < 2 && 2 <= piece <= 7 && from < 64 && bit_set(bbs[side as int] & bbs[piece as int], from)
            && 0 <= l < threatened(bbs, side, piece, from).len() && 0 <= k < threatened(
            bbs,
            side,
            piece,
            from,
        )[l].len() ==> {
            let to = #[trigger] threatened(bbs, side, piece, from)[l][k] as u64;
            threat_in_range(perspective, side, piece, from, to, color_on(bbs, to), piece_on(bbs, to), ksq)
        }
}

pub proof fn lemma_owner_valid(bbs: Seq<u64>, sq: u64, k: nat)
    requires
        k <= 12,
        last_owner(bbs, sq, k) is Some,
    ensures
        ({
            let j = last_owner(bbs, sq, k)->0;
            &&& j < k
            &&& bit_set(bbs[pair_side(j) as int] & bbs[pair_piece(j) as int], sq)
        }),
    decreases k,
{
    if k > 0 {
        let j = (k - 1) as nat;
        if !bit_set(bbs[pair_side(j) as int] & bbs[pair_piece(j) as int], sq) {
            lemma_owner_valid(bbs, sq, j);
        }
    }
}

/// Appends the features of the threats of a piece on `from` against the squares of `targets`.
fn push_threats(
    calc: &ThreatFeatureCalculation,
    out: &mut Vec<usize>,
    piece_on_sq: &Vec<usize>,
    color_on_sq: &Vec<usize>,
    Ghost(bbs): Ghost<Seq<u64>>,
    perspective: usize,
    side: usize,
    piece: usize,
    from: usize,
    targets: u64,
    ksq: usize,
)
    requires
        calc.wf(),
        bbs.len() == 8,
        piece_on_sq@.len() == 64,
        color_on_sq@.len() == 64,
        forall|sq: int| 0 <= sq < 64 ==> #[trigger] piece_on_sq@[sq] == piece_on(bbs, sq as u64),
        forall|sq: int| 0 <= sq < 64 ==> #[trigger] color_on_sq@[sq] == color_on(bbs, sq as u64),
        side < 2,
        2 <= piece <= 7,
        from < 64,
        forall|k: int| 0 <= k < squares_of(targets).len() ==> last_owner(bbs, #[trigger] squares_of(targets)[k] as u64, 12) is Some,
        forall|k: int| 0 <= k < squares_of(targets).len() ==> {
            let to = #[trigger] squares_of(targets)[k] as u64;
            threat_in_range(perspective as nat, side as nat, piece as nat, from as u64, to, color_on(bbs, to), piece_on(bbs, to), ksq as nat)
        },
        forall|j: int| 0 <= j < old(out)@.len() ==> #[trigger] old(out)@[j] < calc.total_features,
    ensures
        final(out)@ == old(out)@ + threats_to(bbs, perspective as nat, ksq as nat, side as nat, piece as nat, from as u64, squares_of(targets)),
        forall|j: int| 0 <= j < final(out)@.len() ==> #[trigger] final(out)@[j] < calc.total_features,
{
    let tos = squares(targets);
    proof {
        lemma_set_bits_len(targets, 64);
    }
    let ghost start = out@;
    let mut i: usize = 0;
    while i < tos.len()
        invariant
            calc.wf(),
            bbs.len() == 8,
            tos@ == squares_of(targets),
            i <= tos@.len(),
            piece_on_sq@.len() == 64,
            color_on_sq@.len() == 64,
            forall|sq: int| 0 <= sq < 64 ==> #[trigger] piece_on_sq@[sq] == piece_on(bbs, sq as u64),
            forall|sq: int| 0 <= sq < 64 ==> #[trigger] color_on_sq@[sq] == color_on(bbs, sq as u64),
            side < 2,
            2 <= piece <= 7,
            from < 64,
            forall|k: int| 0 <= k < tos@.len() ==> #[trigger] tos@[k] < 64 && bit_set(targets, tos@[k] as u64),
            forall|k: int| 0 <= k < squares_of(targets).len() ==> last_owner(bbs, #[trigger] squares_of(targets)[k] as u64, 12) is Some,
            forall|k: int| 0 <= k < squares_of(targets).len() ==> {
                let to = #[trigger] squares_of(targets)[k] as u64;
                threat_in_range(perspective as nat, side as nat, piece as nat, from as u64, to, color_on(bbs, to), piece_on(bbs, to), ksq as nat)
            },
            out@ == start + threats_to(bbs, perspective as nat, ksq as nat, side as nat, piece as nat, from as u64, tos@.take(i as int)),
            forall|j: int| 0 <= j < out@.len() ==> #[trigger] out@[j] < calc.total_features,
        decreases tos@.len() - i,
    {
        let to = tos[i];
        proof {
            assert(tos@[i as int] == to);
            assert(squares_of(targets)[i as int] == to);
            assert(last_owner(bbs, to as u64, 12) is Some);
            lemma_owner_valid(bbs, to as u64, 12);
            assert(tos@.take(i + 1).drop_last() == tos@.take(i as int));
            assert(tos@.take(i + 1).last() == to);
        }
        let idx = threat_index(calc, perspective, side, piece, from, to, color_on_sq[to], piece_on_sq[to], ksq);
        match idx {
            Some(v) => {
                out.push(v);
            },
            None => {},
        }
        i += 1;
    }
    proof {
        assert(tos@.take(tos@.len() as int) == tos@);
    }
}

/// Appends the features of the threats of the piece on `from`.
fn push_square_threats(
    calc: &ThreatFeatureCalculation,
    out: &mut Vec<usize>,
    piece_on_sq: &Vec<usize>,
    color_on_sq: &Vec<usize>,
    bbs: &[u64; 8],
    occ: u64,
    pawn_occ: u64,
    perspective: usize,
    side: usize,
    piece: usize,
    from: usize,
    ksq: usize,
)
    requires
        calc.wf(),
        2 <= piece <= 7,
        side < 2,
        from < 64,
        bit_set(bbs@[side as int] & bbs@[piece as int], from as u64),
        threats_covered(bbs@),
        threats_in_range(bbs@, perspective as nat, ksq as nat),
        occ == bbs@[0] | bbs@[1],
        pawn_occ == bbs@[2],
        piece_on_sq@.len() == 64,
        color_on_sq@.len() == 64,
        forall|sq: int| 0 <= sq < 64 ==> #[trigger] piece_on_sq@[sq] == piece_on(bbs@, sq as u64),
        forall|sq: int| 0 <= sq < 64 ==> #[trigger] color_on_sq@[sq] == color_on(bbs@, sq as u64),
        forall|j: int| 0 <= j < old(out)@.len() ==> #[trigger] old(out)@[j] < calc.total_features,
    ensures
        final(out)@ == old(out)@ + square_threats(bbs@, perspective as nat, ksq as nat, side as nat, piece as nat, from as u64),
        forall|j: int| 0 <= j < final(out)@.len() ==> #[trigger] final(out)@[j] < calc.total_features,
{
    let ghost before_from = out@;
    let ghost lists = threatened(bbs@, side as nat, piece as nat, from as u64);
    if piece == Piece::PAWN {
        let attacks = Attacks::pawn(from, side) & occ;
        proof {
            assert forall|kk: int| 0 <= kk < squares_of(attacks).len() implies last_owner(bbs@, #[trigger] squares_of(attacks)[kk] as u64, 12) is Some by {
                assert(lists[0] == squares_of(attacks));
                assert(threatened(bbs@, side as nat, piece as nat, from as u64)[0][kk] == squares_of(attacks)[kk]);
            }
            assert forall|kk: int| 0 <= kk < squares_of(attacks).len() implies {
                let to = #[trigger] squares_of(attacks)[kk] as u64;
                threat_in_range(perspective as nat, side as nat, piece as nat, from as u64, to, color_on(bbs@, to), piece_on(bbs@, to), ksq as nat)
            } by {
                assert(lists[0] == squares_of(attacks));
                assert(threatened(bbs@, side as nat, piece as nat, from as u64)[0][kk] == squares_of(attacks)[kk]);
            }
        }
        push_threats(calc, out, piece_on_sq, color_on_sq, Ghost(bbs@), perspective, side, piece, from, attacks, ksq);
        let push = pawn_push_from(from, side) & pawn_occ;
        proof {
            assert forall|kk: int| 0 <= kk < squares_of(push).len() implies last_owner(bbs@, #[trigger] squares_of(push)[kk] as u64, 12) is Some by {
                assert(lists[1] == squares_of(push));
                assert(threatened(bbs@, side as nat, piece as nat, from as u64)[1][kk] == squares_of(push)[kk]);
            }
            assert forall|kk: int| 0 <= kk < squares_of(push).len() implies {
                let to = #[trigger] squares_of(push)[kk] as u64;
                threat_in_range(perspective as nat, side as nat, piece as nat, from as u64, to, color_on(bbs@, to), piece_on(bbs@, to), ksq as nat)
            } by {
                assert(lists[1] == squares_of(push));
                assert(threatened(bbs@, side as nat, piece as nat, from as u64)[1][kk] == squares_of(push)[kk]);
            }
        }
        push_threats(calc, out, piece_on_sq, color_on_sq, Ghost(bbs@), perspective, side, piece, from, push, ksq);
        proof {
            let pp = perspective as nat;
            let kk = ksq as nat;
            let sd = side as nat;
            let pc = piece as nat;
            let f = from as u64;
            assert(lists.len() == 2);
            assert(lists.drop_last().drop_last() == Seq::<Seq<usize>>::empty());
            assert(lists.drop_last().last() == lists[0]);
            assert(lists.last() == lists[1]);
            assert(threat_lists(bbs@, pp, kk, sd, pc, f, lists.drop_last().drop_last()) == Seq::<usize>::empty());
            assert(threat_lists(bbs@, pp, kk, sd, pc, f, lists.drop_last()) == Seq::<usize>::empty() + threats_to(bbs@, pp, kk, sd, pc, f, lists[0]));
            assert(square_threats(bbs@, pp, kk, sd, pc, f) == threat_lists(bbs@, pp, kk, sd, pc, f, lists.drop_last()) + threats_to(bbs@, pp, kk, sd, pc, f, lists[1]));
            assert(out@ == before_from + square_threats(bbs@, pp, kk, sd, pc, f));
        }
    } else {
        let attacks = if piece == Piece::KNIGHT {
            Attacks::knight(from)
        } else if piece == Piece::BISHOP {
            Attacks::bishop(from, occ)
        } else if piece == Piece::ROOK {
            Attacks::rook(from, occ)
        } else if piece == Piece::QUEEN {
            Attacks::queen(from, occ)
        } else {
            Attacks::king(from)
        } & occ;
        proof {
            assert forall|kk: int| 0 <= kk < squares_of(attacks).len() implies last_owner(bbs@, #[trigger] squares_of(attacks)[kk] as u64, 12) is Some by {
                assert(lists[0] == squares_of(attacks));
                assert(threatened(bbs@, side as nat, piece as nat, from as u64)[0][kk] == squares_of(attacks)[kk]);
            }
            assert forall|kk: int| 0 <= kk < squares_of(attacks).len() implies {
                let to = #[trigger] squares_of(attacks)[kk] as u64;
                threat_in_range(perspective as nat, side as nat, piece as nat, from as u64, to, color_on(bbs@, to), piece_on(bbs@, to), ksq as nat)
            } by {
                assert(lists[0] == squares_of(attacks));
                assert(threatened(bbs@, side as nat, piece as nat, from as u64)[0][kk] == squares_of(attacks)[kk]);
            }
        }
        push_threats(calc, out, piece_on_sq, color_on_sq, Ghost(bbs@), perspective, side, piece, from, attacks, ksq);
        proof {
            let pp = perspective as nat;
            let kk = ksq as nat;
            let sd = side as nat;
            let pc = piece as nat;
            let f = from as u64;
            assert(lists.len() == 1);
            assert(lists.drop_last() == Seq::<Seq<usize>>::empty());
            assert(lists.last() == lists[0]);
            assert(threat_lists(bbs@, pp, kk, sd, pc, f, lists.drop_last()) == Seq::<usize>::empty());
            assert(square_threats(bbs@, pp, kk, sd, pc, f) == Seq::<usize>::empty() + threats_to(bbs@, pp, kk, sd, pc, f, lists[0]));
            assert(out@ == before_from + square_threats(bbs@, pp, kk, sd, pc, f));
        }
    }
}

/// The features of all threats on the board, seen from `perspective` with its king on `ksq`,
/// in the order white-or-black first, pawn to king, squares ascending.
pub fn map_full_threats(calc: &ThreatFeatureCalculation, bbs: &[u64; 8], perspective: usize, ksq: usize) -> (r: Vec<usize>)
    requires
        calc.wf(),
        threats_covered(bbs@),
    ensures
        r@ == full_threats(bbs@, perspective as nat, ksq as nat),
        forall|j: int| 0 <= j < r@.len() ==> #[trigger] r@[j] < calc.total_features,
{
    proof {
        lemma_threats_in_range(bbs@, perspective as nat, ksq as nat);
    }
    let (piece_on_sq, color_on_sq) = owners(bbs);
    let occ = bbs[Side::WHITE] | bbs[Side::BLACK];
    let pawn_occ = bbs[Piece::PAWN];
    let first: usize = if perspective == Side::WHITE { Side::WHITE } else { Side::BLACK };
    let mut out: Vec<usize> = Vec::new();
    let mut k: usize = 0;
    while k < 2
        invariant
            calc.wf(),
            k <= 2,
            first == first_side(perspective as nat),
            threats_covered(bbs@),
            threats_in_range(bbs@, perspective as nat, ksq as nat),
            occ == bbs@[0] | bbs@[1],
            pawn_occ == bbs@[2],
            piece_on_sq@.len() == 64,
            color_on_sq@.len() == 64,
            forall|sq: int| 0 <= sq < 64 ==> #[trigger] piece_on_sq@[sq] == piece_on(bbs@, sq as u64),
            forall|sq: int| 0 <= sq < 64 ==> #[trigger] color_on_sq@[sq] == color_on(bbs@, sq as u64),
            out@ == if k == 0 {
                Seq::empty()
            } else if k == 1 {
                side_threats(bbs@, perspective as nat, ksq as nat, first as nat, 6)
            } else {
                full_threats(bbs@, perspective as nat, ksq as nat)
            },
            forall|j: int| 0 <= j < out@.len() ==> #[trigger] out@[j] < calc.total_features,
        decreases 2 - k,
    {
        let side = if k == 0 { first } else { 1 - first };
        let ghost before = out@;
        let mut piece: usize = Piece::PAWN;
        while piece <= Piece::KING
            invariant
                calc.wf(),
                2 <= piece <= 8,
                side < 2,
                threats_covered(bbs@),
                threats_in_range(bbs@, perspective as nat, ksq as nat),
                occ == bbs@[0] | bbs@[1],
                pawn_occ == bbs@[2],
                piece_on_sq@.len() == 64,
                color_on_sq@.len() == 64,
                forall|sq: int| 0 <= sq < 64 ==> #[trigger] piece_on_sq@[sq] == piece_on(bbs@, sq as u64),
                forall|sq: int| 0 <= sq < 64 ==> #[trigger] color_on_sq@[sq] == color_on(bbs@, sq as u64),
                out@ == before + side_threats(bbs@, perspective as nat, ksq as nat, side as nat, (piece - 2) as nat),
                forall|j: int| 0 <= j < out@.len() ==> #[trigger] out@[j] < calc.total_features,
            decreases 8 - piece,
        {
            let pieces = bbs[side] & bbs[piece];
            let froms = squares(pieces);
            proof {
                lemma_set_bits_len(pieces, 64);
            }
            let ghost before_piece = out@;
            let mut fi: usize = 0;
            while fi < froms.len()
                invariant
                    calc.wf(),
                    2 <= piece <= 7,
                    side < 2,
                    froms@ == squares_of(pieces),
                    pieces == bbs@[side as int] & bbs@[piece as int],
                    fi <= froms@.len(),
                    forall|j: int| 0 <= j < froms@.len() ==> #[trigger] froms@[j] < 64 && bit_set(pieces, froms@[j] as u64),
                    threats_covered(bbs@),
                    threats_in_range(bbs@, perspective as nat, ksq as nat),
                    occ == bbs@[0] | bbs@[1],
                    pawn_occ == bbs@[2],
                    piece_on_sq@.len() == 64,
                    color_on_sq@.len() == 64,
                    forall|sq: int| 0 <= sq < 64 ==> #[trigger] piece_on_sq@[sq] == piece_on(bbs@, sq as u64),
                    forall|sq: int| 0 <= sq < 64 ==> #[trigger] color_on_sq@[sq] == color_on(bbs@, sq as u64),
                    out@ == before_piece + piece_threats(bbs@, perspective as nat, ksq as nat, side as nat, piece as nat, froms@.take(fi as int)),
                    forall|j: int| 0 <= j < out@.len() ==> #[trigger] out@[j] < calc.total_features,
                decreases froms@.len() - fi,
            {
                let from = froms[fi];
                proof {
                    assert(froms@.take(fi + 1).drop_last() == froms@.take(fi as int));
                    assert(froms@.take(fi + 1).last() == from);
                    assert(bit_set(pieces, from as u64));
                }
                push_square_threats(calc, &mut out, &piece_on_sq, &color_on_sq, bbs, occ, pawn_occ, perspective, side, piece, from, ksq);
                fi += 1;
            }
            proof {
                assert(froms@.take(froms@.len() as int) == froms@);
            }
            piece += 1;
        }
        k += 1;
    }
    out
}

/// Mirroring the board keeps the empty-board moves of every piece; a vertical mirror swaps
/// the pawn colours.
#[verifier::spinoff_prover]
#[verifier::rlimit(40)]
pub proof fn lemma_target_set_mirror(pt: nat, c: nat, s: u64, t: u64, o: u64)
    requires
        pt < 6,
        c < 2,
        s < 64,
        t < 64,
        o == 0 || o == 7 || o == 56 || o == 63,
        bit_set(target_set(pt, c, s), t),
    ensures
        bit_set(target_set(pt, if o >= 56 { (1 - c) as nat } else { c }, s ^ o), t ^ o),
{
    lemma_mirror_coords(s, o);
    lemma_mirror_coords(t, o);
    let s2 = s ^ o;
    let t2 = t ^ o;
    let c2: nat = if o >= 56 { (1 - c) as nat } else { c };
    assert(s == s2 ^ o && t == t2 ^ o);
    assert(t == s + 8 <==> (rank_of(t) == rank_of(s) + 1 && file_of(t) == file_of(s)));
    assert(t + 8 == s <==> (rank_of(t) + 1 == rank_of(s) && file_of(t) == file_of(s)));
    assert(t2 == s2 + 8 <==> (rank_of(t2) == rank_of(s2) + 1 && file_of(t2) == file_of(s2)));
    assert(t2 + 8 == s2 <==> (rank_of(t2) + 1 == rank_of(s2) && file_of(t2) == file_of(s2)));
    assert forall|u: u64| u < 64 implies !#[trigger] bit_set(0u64, u) by {
        lemma_bit_ops(0, 0, u);
    }
    let side: u64 = if c == 0 { 0 } else { 1 };
    let side2: u64 = if c2 == 0 { 0 } else { 1 };
    if pt == 0 {
        lemma_bit_ops(pawn_captures(side, s), pawn_pushes(side, s), t);
        lemma_bit_ops(pawn_captures(side2, s2), pawn_pushes(side2, s2), t2);
        lemma_board_of(|x: u64| pawn_capture(side, s, x), t);
        lemma_board_of(|x: u64| pawn_step(side, s, x), t);
        lemma_board_of(|x: u64| pawn_capture(side2, s2, x), t2);
        lemma_board_of(|x: u64| pawn_step(side2, s2, x), t2);
    } else if pt == 1 {
        lemma_board_of(|x: u64| knight_jump(s, x), t);
        lemma_board_of(|x: u64| knight_jump(s2, x), t2);
    } else if pt == 5 {
        lemma_board_of(|x: u64| king_step(s, x), t);
        lemma_board_of(|x: u64| king_step(s2, x), t2);
    } else {
        lemma_board_of(|x: u64| rook_sees(s, x, 0), t);
        lemma_board_of(|x: u64| rook_sees(s2, x, 0), t2);
        lemma_board_of(|x: u64| bishop_sees(s, x, 0), t);
        lemma_board_of(|x: u64| bishop_sees(s2, x, 0), t2);
        lemma_board_of(|x: u64| rook_sees(s, x, 0) || bishop_sees(s, x, 0), t);
        lemma_board_of(|x: u64| rook_sees(s2, x, 0) || bishop_sees(s2, x, 0), t2);
    }
}

/// A bitboard whose squares all lie in `a..a + 3` has at most three squares.
proof fn lemma_count_in_window(x: u64, a: nat, n: nat)
    requires
        n <= 64,
        forall|t: u64| t < 64 && #[trigger] bit_set(x, t) ==> a <= t < a + 3,
    ensures
        count_below(x, n) <= if n <= a { 0 } else if n >= a + 3 { 3 } else { (n - a) as nat },
    decreases n,
{
    if n > 0 {
        lemma_count_in_window(x, a, (n - 1) as nat);
        if bit_set(x, (n - 1) as u64) {
            assert(a <= n - 1 < a + 3);
        }
    }
}

/// A pawn has at most three target squares.
proof fn lemma_pawn_targets_few(c: nat, s: u64)
    requires
        c < 2,
        s < 64,
    ensures
        popcount(target_set(0, c, s)) <= 3,
{
    let side: u64 = if c == 0 { 0 } else { 1 };
    let x = target_set(0, c, s);
    let a: nat = if c == 0 { (s + 7) as nat } else if s >= 9 { (s - 9) as nat } else { 0 };
    assert forall|t: u64| t < 64 && #[trigger] bit_set(x, t) implies a <= t < a + 3 by {
        lemma_bit_ops(pawn_captures(side, s), pawn_pushes(side, s), t);
        lemma_board_of(|y: u64| pawn_capture(side, s, y), t);
        lemma_board_of(|y: u64| pawn_step(side, s, y), t);
    }
    lemma_count_in_window(x, a, 64);
}

/// A set square makes a count positive.
proof fn lemma_popcount_pos(x: u64, t: u64)
    requires
        t < 64,
        bit_set(x, t),
    ensures
        popcount(x) >= 1,
{
    lemma_count_below_lt_total(x, t);
}

/// Pawns count on ranks 2 to 7 only.
proof fn lemma_pawn_offsets(c: nat, n: nat)
    requires
        n <= 64,
    ensures
        n <= 8 ==> square_offset(0, c, n) == 0,
        n >= 56 ==> square_offset(0, c, n) == square_offset(0, c, 56),
    decreases n,
{
    if n > 0 {
        lemma_pawn_offsets(c, (n - 1) as nat);
    }
}

/// Every pawn on ranks 2 to 7 has its push, so each colour's pawns hold at least three
/// features per target kind.
proof fn lemma_pawn_total(c: nat)
    requires
        c < 2,
    ensures
        square_offset(0, c, 64) >= 3,
{
    let side: u64 = if c == 0 { 0 } else { 1 };
    assert forall|s: u64| 8 <= s <= 55 implies #[trigger] square_count(0, c, s) >= 1 by {
        let t: u64 = if c == 0 { (s + 8) as u64 } else { (s - 8) as u64 };
        lemma_board_of(|y: u64| pawn_step(side, s, y), t);
        lemma_bit_ops(pawn_captures(side, s), pawn_pushes(side, s), t);
        lemma_popcount_pos(target_set(0, c, s), t);
    }
    assert(square_count(0, c, 8) >= 1);
    assert(square_count(0, c, 9) >= 1);
    assert(square_count(0, c, 10) >= 1);
    lemma_pawn_offsets(c, 8);
    assert(square_offset(0, c, 9) == square_offset(0, c, 8) + square_count(0, c, 8));
    assert(square_offset(0, c, 10) == square_offset(0, c, 9) + square_count(0, c, 9));
    assert(square_offset(0, c, 11) == square_offset(0, c, 10) + square_count(0, c, 10));
    assert(square_offset(0, c, 11) >= 3);
    lemma_square_offset_mono(0, c, 11, 64);
}

/// The black knight holds at least one feature per target kind.
proof fn lemma_knight_total()
    ensures
        square_offset(1, 1, 64) >= 1,
{
    assert(knight_jump(0, 10));
    lemma_board_of(|y: u64| knight_jump(0, y), 10);
    lemma_popcount_pos(knight_attacks(0), 10);
    assert(square_offset(1, 1, 0) == 0);
    assert(square_offset(1, 1, 1) == square_offset(1, 1, 0) + square_count(1, 1, 0));
    lemma_square_offset_mono(1, 1, 1, 64);
}

proof fn lemma_piece_offset_mono(k: nat, m: nat)
    requires
        k <= m,
    ensures
        piece_offset(k) <= piece_offset(m),
    decreases m,
{
    if k < m {
        lemma_piece_offset_mono(k, (m - 1) as nat);
    }
}

/// Within one piece's block, the offset of a square plus the rank of the target among the
/// square's targets determines the square and the target (pawns on the second to seventh rank).
pub(crate) proof fn lemma_square_target_unique(pt: nat, c: nat, f1: u64, t1: u64, f2: u64, t2: u64)
    requires
        pt < 6,
        c < 2,
        f1 < 64,
        t1 < 64,
        f2 < 64,
        t2 < 64,
        bit_set(target_set(pt, c, f1), t1),
        bit_set(target_set(pt, c, f2), t2),
        pt == 0 ==> 8 <= f1 <= 55 && 8 <= f2 <= 55,
        square_offset(pt, c, f1 as nat) + count_below(target_set(pt, c, f1), t1 as nat) == square_offset(
            pt,
            c,
            f2 as nat,
        ) + count_below(target_set(pt, c, f2), t2 as nat),
    ensures
        f1 == f2,
        t1 == t2,
{
    lemma_count_below_lt_total(target_set(pt, c, f1), t1);
    lemma_count_below_lt_total(target_set(pt, c, f2), t2);
    assert(square_offset(pt, c, (f1 + 1) as nat) == square_offset(pt, c, f1 as nat) + square_count(pt, c, f1));
    assert(square_offset(pt, c, (f2 + 1) as nat) == square_offset(pt, c, f2 as nat) + square_count(pt, c, f2));
    if f1 < f2 {
        lemma_square_offset_mono(pt, c, (f1 + 1) as nat, f2 as nat);
    } else if f2 < f1 {
        lemma_square_offset_mono(pt, c, (f2 + 1) as nat, f1 as nat);
    }
    let ts = target_set(pt, c, f1);
    if t1 < t2 {
        lemma_count_below_mono(ts, (t1 + 1) as nat, t2 as nat);
    } else if t2 < t1 {
        lemma_count_below_mono(ts, (t2 + 1) as nat, t1 as nat);
    }
}

/// A feature of the `j`-th piece lies in that piece's block, before the next piece's first
/// feature.
proof fn lemma_piece_block(j: nat, x: nat)
    requires
        j < 12,
        x < num_valid_targets(2 * (j % 6) + j / 6) * square_offset(j % 6, j / 6, 64),
    ensures
        piece_offset(j) + x < piece_offset(j + 1),
{
}

/// The parts of a threat's feature: the first feature of the attacking piece's block, the
/// target kind times the block's square count, and the offset of the square and target.
proof fn lemma_feature_parts(
    perspective: nat,
    ksq: nat,
    ac: nat,
    a: nat,
    f: u64,
    t: u64,
    dc: nat,
    d: nat,
)
    requires
        ac < 2 && dc < 2 && 2 <= a <= 7 && 2 <= d <= 7 && f < 64 && t < 64,
        bit_set(target_set((a - 2) as nat, ac, f), t),
        a == 2 ==> 8 <= f <= 55,
        threat_feature(perspective, ac, a, f, t, dc, d, ksq) is Some,
    ensures
        ({
            let o = orientation(perspective, ksq);
            let c = relative_color(perspective, ac);
            let at = (a - 2) as nat;
            let j = 6 * c + at;
            let sq = square_offset(at, c, 64);
            let w = square_offset(at, c, (f ^ o) as nat) + count_below(target_set(at, c, f ^ o), (t ^ o) as nat);
            let h = num_valid_targets(2 * at + c) / 2;
            let slot = target_slot(at, (d - 2) as nat);
            let to = relative_color(perspective, dc) * h + slot as nat;
            &&& threat_feature(perspective, ac, a, f, t, dc, d, ksq)->0 == piece_offset(j) + to * sq + w
            &&& piece_offset(j) + to * sq + w < piece_offset(j + 1)
            &&& j < 12 && at < 5 && c < 2
            &&& 0 <= slot < h
            &&& w < sq
            &&& (f ^ o) < 64 && (t ^ o) < 64
            &&& bit_set(target_set(at, c, f ^ o), t ^ o)
            &&& (at == 0 ==> 8 <= (f ^ o) <= 55)
        }),
{
    let o = orientation(perspective, ksq);
    lemma_orientation_values(perspective, ksq);
    lemma_mirror_coords(f, o);
    lemma_mirror_coords(t, o);
    let at = (a - 2) as nat;
    let c = relative_color(perspective, ac);
    lemma_target_set_mirror(at, ac, f, t, o);
    let ff = f ^ o;
    let tt = t ^ o;
    let sq = square_offset(at, c, 64);
    let w = square_offset(at, c, ff as nat) + count_below(target_set(at, c, ff), tt as nat);
    lemma_below_next_square(at, c, ff, tt);
    let id = 2 * at + c;
    let h = num_valid_targets(id) / 2;
    let slot = target_slot(at, (d - 2) as nat);
    let to = relative_color(perspective, dc) * h + slot as nat;
    assert(num_valid_targets(id) == 2 * h);
    assert(0 <= slot < h);
    let dd = relative_color(perspective, dc);
    assert(dd < 2);
    assert(to < 2 * h) by (nonlinear_arith)
        requires to == dd * h + slot, dd < 2, 0 <= slot < h;
    let j = 6 * c + at;
    assert(j % 6 == at && j / 6 == c && 2 * (j % 6) + j / 6 == id);
    assert(to * sq + w < num_valid_targets(id) * sq) by (nonlinear_arith)
        requires to < num_valid_targets(id), w < sq;
    lemma_piece_block(j, to * sq + w);
}

/// No two threats get the same feature from one perspective: the feature of a threat against a
/// square its piece reaches on an empty board determines the colours and types of both pieces
/// and both squares (pawns standing on the second to seventh rank).
pub proof fn lemma_threat_feature_injective(
    perspective: nat,
    ksq: nat,
    ac1: nat,
    a1: nat,
    f1: u64,
    t1: u64,
    dc1: nat,
    d1: nat,
    ac2: nat,
    a2: nat,
    f2: u64,
    t2: u64,
    dc2: nat,
    d2: nat,
)
    requires
        ac1 < 2 && dc1 < 2 && 2 <= a1 <= 7 && 2 <= d1 <= 7 && f1 < 64 && t1 < 64,
        ac2 < 2 && dc2 < 2 && 2 <= a2 <= 7 && 2 <= d2 <= 7 && f2 < 64 && t2 < 64,
        bit_set(target_set((a1 - 2) as nat, ac1, f1), t1),
        bit_set(target_set((a2 - 2) as nat, ac2, f2), t2),
        a1 == 2 ==> 8 <= f1 <= 55,
        a2 == 2 ==> 8 <= f2 <= 55,
        threat_feature(perspective, ac1, a1, f1, t1, dc1, d1, ksq) is Some,
        threat_feature(perspective, ac1, a1, f1, t1, dc1, d1, ksq) == threat_feature(
            perspective,
            ac2,
            a2,
            f2,
            t2,
            dc2,
            d2,
            ksq,
        ),
    ensures
        ac1 == ac2 && a1 == a2 && f1 == f2 && t1 == t2 && dc1 == dc2 && d1 == d2,
{
    let o = orientation(perspective, ksq);
    lemma_orientation_values(perspective, ksq);
    lemma_mirror_coords(f1, o);
    lemma_mirror_coords(t1, o);
    lemma_mirror_coords(f2, o);
    lemma_mirror_coords(t2, o);
    lemma_feature_parts(perspective, ksq, ac1, a1, f1, t1, dc1, d1);
    lemma_feature_parts(perspective, ksq, ac2, a2, f2, t2, dc2, d2);
    let c1 = relative_color(perspective, ac1);
    let c2 = relative_color(perspective, ac2);
    let at1 = (a1 - 2) as nat;
    let at2 = (a2 - 2) as nat;
    let j1 = 6 * c1 + at1;
    let j2 = 6 * c2 + at2;
    if j1 < j2 {
        lemma_piece_offset_mono(j1 + 1, j2);
    } else if j2 < j1 {
        lemma_piece_offset_mono(j2 + 1, j1);
    }
    assert(c1 == c2 && at1 == at2);
    let sq = square_offset(at1, c1, 64);
    let w1 = square_offset(at1, c1, (f1 ^ o) as nat) + count_below(target_set(at1, c1, f1 ^ o), (t1 ^ o) as nat);
    let w2 = square_offset(at2, c2, (f2 ^ o) as nat) + count_below(target_set(at2, c2, f2 ^ o), (t2 ^ o) as nat);
    let h = num_valid_targets(2 * at1 + c1) / 2;
    let slot1 = target_slot(at1, (d1 - 2) as nat);
    let slot2 = target_slot(at2, (d2 - 2) as nat);
    let dd1 = relative_color(perspective, dc1);
    let dd2 = relative_color(perspective, dc2);
    let to1 = dd1 * h + slot1 as nat;
    let to2 = dd2 * h + slot2 as nat;
    assert(to1 * sq + w1 == to2 * sq + w2);
    assert(to1 == to2 && w1 == w2) by (nonlinear_arith)
        requires to1 * sq + w1 == to2 * sq + w2, w1 < sq, w2 < sq;
    lemma_square_target_unique(at1, c1, f1 ^ o, t1 ^ o, f2 ^ o, t2 ^ o);
    assert(dd1 == dd2 && slot1 == slot2) by (nonlinear_arith)
        requires dd1 * h + slot1 == dd2 * h + slot2, 0 <= slot1 < h, 0 <= slot2 < h, dd1 < 2, dd2 < 2;
    assert(f1 == f2 && t1 == t2);
    assert(dc1 == dc2);
    assert(d1 == d2);
}

/// A target square carries a feature below the next square's first feature.
pub proof fn lemma_below_next_square(pt: nat, c: nat, f: u64, t: u64)
    requires
        pt < 6,
        c < 2,
        f < 64,
        t < 64,
        bit_set(target_set(pt, c, f), t),
        pt != 0 || 8 <= f <= 55,
    ensures
        square_offset(pt, c, f as nat) + count_below(target_set(pt, c, f), t as nat) < square_offset(pt, c, 64),
{
    lemma_count_below_lt_total(target_set(pt, c, f), t);
    assert(square_offset(pt, c, (f + 1) as nat) == square_offset(pt, c, f as nat) + square_count(pt, c, f));
    lemma_square_offset_mono(pt, c, (f + 1) as nat, 64);
}

proof fn lemma_orientation_values(perspective: nat, ksq: nat)
    ensures
        ({
            let o = orientation(perspective, ksq);
            &&& o == 0 || o == 7 || o == 56 || o == 63
            &&& (o >= 56) == (perspective == 1)
        }),
{
    assert(0u64 ^ 56u64 == 56u64 && 7u64 ^ 56u64 == 63u64 && 0u64 ^ 0u64 == 0u64 && 7u64 ^ 0u64 == 7u64) by (bit_vector);
}

/// A threat against a square that the attacking piece reaches on an empty board (for pawns:
/// captures and the push) always gets a feature below the number of threat features.
pub proof fn lemma_threat_feature_in_range(
    perspective: nat,
    side: nat,
    piece: nat,
    from: u64,
    to: u64,
    attacked_color: nat,
    attacked: nat,
    ksq: nat,
)
    requires
        side < 2,
        2 <= piece <= 7,
        from < 64,
        to < 64,
        attacked_color < 2,
        2 <= attacked <= 7,
        bit_set(target_set((piece - 2) as nat, side, from), to),
    ensures
        threat_in_range(perspective, side, piece, from, to, attacked_color, attacked, ksq),
{
    let o = orientation(perspective, ksq);
    lemma_orientation_values(perspective, ksq);
    let f = from ^ o;
    let t = to ^ o;
    let at = (piece - 2) as nat;
    let ac = relative_color(perspective, side);
    let dc = relative_color(perspective, attacked_color);
    lemma_target_set_mirror(at, side, from, to, o);
    lemma_mirror_coords(from, o);
    lemma_mirror_coords(to, o);
    assert(bit_set(target_set(at, ac, f), t));
    match threat_feature(perspective, side, piece, from, to, attacked_color, attacked, ksq) {
        None => {},
        Some(v) => {
            let dt = (attacked - 2) as nat;
            let slot = target_slot(at, dt);
            let id = 2 * at + ac;
            let nvt = num_valid_targets(id);
            let t64 = square_offset(at, ac, 64);
            let k = 6 * ac + at;
            let below = count_below(target_set(at, ac, f), t as nat);
            let tgt = dc * (nvt / 2) + slot as nat;
            assert(0 <= slot && at <= 4);
            assert(slot < nvt / 2);
            assert(tgt + 1 <= nvt) by (nonlinear_arith)
                requires dc < 2, 0 <= slot < nvt / 2, tgt == dc * (nvt / 2) + slot;
            assert(k % 6 == at && k / 6 == ac);
            assert(piece_offset(k + 1) == piece_offset(k) + nvt * t64);
            assert(tgt * t64 + t64 <= nvt * t64) by (nonlinear_arith)
                requires tgt + 1 <= nvt;
            lemma_piece_offset_mono(k + 1, 12);
            assert(v == piece_offset(k) + tgt * t64 + square_offset(at, ac, f as nat) + below);
            if at != 0 || (8 <= f <= 55) {
                lemma_below_next_square(at, ac, f, t);
            } else {
                let sd: u64 = if ac == 0 { 0 } else { 1 };
                lemma_bit_ops(pawn_captures(sd, f), pawn_pushes(sd, f), t);
                lemma_board_of(|y: u64| pawn_capture(sd, f, y), t);
                lemma_board_of(|y: u64| pawn_step(sd, f, y), t);
                lemma_pawn_targets_few(ac, f);
                lemma_count_below_lt_total(target_set(at, ac, f), t);
                lemma_pawn_total(ac);
                if f < 8 {
                    assert(ac == 0);
                    lemma_pawn_offsets(ac, f as nat);
                } else {
                    assert(ac == 1);
                    lemma_pawn_offsets(ac, f as nat);
                    lemma_pawn_offsets(ac, 64);
                    lemma_knight_total();
                    assert(piece_offset(8) == piece_offset(7) + 10 * square_offset(1, 1, 64));
                    lemma_piece_offset_mono(8, 12);
                }
            }
        },
    }
}

/// A piece attacks through any occupancy only squares it reaches on an empty board.
pub proof fn lemma_attacks_within_targets(piece: nat, from: u64, occ: u64, t: u64)
    requires
        3 <= piece <= 7,
        from < 64,
        t < 64,
        bit_set(piece_attack_set(piece, from, occ), t),
    ensures
        bit_set(target_set((piece - 2) as nat, 0, from), t),
{
    assert forall|u: u64| u < 64 implies !#[trigger] bit_set(0u64, u) by {
        lemma_bit_ops(0, 0, u);
    }
    lemma_board_of(|x: u64| rook_sees(from, x, occ), t);
    lemma_board_of(|x: u64| rook_sees(from, x, 0), t);
    lemma_board_of(|x: u64| bishop_sees(from, x, occ), t);
    lemma_board_of(|x: u64| bishop_sees(from, x, 0), t);
    lemma_board_of(|x: u64| rook_sees(from, x, occ) || bishop_sees(from, x, occ), t);
    lemma_board_of(|x: u64| rook_sees(from, x, 0) || bishop_sees(from, x, 0), t);
}

/// On a covered board every threat gets a feature below the number of threat features.
pub proof fn lemma_threats_in_range(bbs: Seq<u64>, perspective: nat, ksq: nat)
    requires
        bbs.len() == 8,
        threats_covered(bbs),
    ensures
        threats_in_range(bbs, perspective, ksq),
{
    assert forall|side: nat, piece: nat, from: u64, l: int, k: int|
        side < 2 && 2 <= piece <= 7 && from < 64 && bit_set(bbs[side as int] & bbs[piece as int], from)
            && 0 <= l < threatened(bbs, side, piece, from).len() && 0 <= k < threatened(
            bbs,
            side,
            piece,
            from,
        )[l].len() implies {
            let to = #[trigger] threatened(bbs, side, piece, from)[l][k] as u64;
            threat_in_range(perspective, side, piece, from, to, color_on(bbs, to), piece_on(bbs, to), ksq)
        } by {
        let occ = bbs[0] | bbs[1];
        let sd: u64 = if side == 0 { 0 } else { 1 };
        let set: u64 = if piece == 2 {
            if l == 0 { pawn_captures(sd, from) & occ } else { pawn_pushes(sd, from) & bbs[2] }
        } else {
            piece_attack_set(piece, from, occ) & occ
        };
        assert(threatened(bbs, side, piece, from)[l] == squares_of(set));
        lemma_set_bits_len(set, 64);
        let to = squares_of(set)[k] as u64;
        assert(to < 64 && bit_set(set, to));
        lemma_bit_ops(occ, bbs[2], to);
        if piece == 2 {
            if l == 0 {
                lemma_bit_ops(pawn_captures(sd, from), occ, to);
            } else {
                lemma_bit_ops(pawn_pushes(sd, from), bbs[2], to);
            }
            lemma_bit_ops(pawn_captures(sd, from), pawn_pushes(sd, from), to);
        } else {
            lemma_bit_ops(piece_attack_set(piece, from, occ), occ, to);
            lemma_attacks_within_targets(piece, from, occ, to);
        }
        assert(last_owner(bbs, to, 12) is Some);
        lemma_owner_valid(bbs, to, 12);
        lemma_threat_feature_in_range(perspective, side, piece, from, to, color_on(bbs, to), piece_on(bbs, to), ksq);
    }
}

/// On boards where every occupied square holds a piece, every threatened square holds one.
pub proof fn lemma_covered_threats(bbs: Seq<u64>)
    requires
        bbs.len() == 8,
        board_covered(bbs),
    ensures
        threats_covered(bbs),
{
    assert forall|side: nat, piece: nat, from: u64, l: int, k: int|
        side < 2 && 2 <= piece <= 7 && from < 64 && bit_set(bbs[side as int] & bbs[piece as int], from)
            && 0 <= l < threatened(bbs, side, piece, from).len() && 0 <= k < threatened(
            bbs,
            side,
            piece,
            from,
        )[l].len() implies last_owner(bbs, #[trigger] threatened(bbs, side, piece, from)[l][k] as u64, 12) is Some by {
        let occ = bbs[0] | bbs[1];
        let sd: u64 = if side == 0 { 0 } else { 1 };
        let set: u64 = if piece == 2 {
            if l == 0 { pawn_captures(sd, from) & occ } else { pawn_pushes(sd, from) & bbs[2] }
        } else {
            piece_attack_set(piece, from, occ) & occ
        };
        assert(threatened(bbs, side, piece, from)[l] == squares_of(set));
        lemma_set_bits_len(set, 64);
        let to = squares_of(set)[k] as u64;
        assert(to < 64 && bit_set(set, to));
        lemma_bit_ops(occ, bbs[2], to);
        if piece == 2 {
            if l == 0 {
                lemma_bit_ops(pawn_captures(sd, from), occ, to);
            } else {
                lemma_bit_ops(pawn_pushes(sd, from), bbs[2], to);
            }
        } else {
            lemma_bit_ops(piece_attack_set(piece, from, occ), occ, to);
        }
        assert(bit_set(bbs[0] | bbs[1] | bbs[2], to));
    }
}

/// The bitboards (white, black, pawn to king) of the first `n` (piece code, square) pairs.
pub open spec fn piece_boards(pieces: Seq<(u8, u8)>, n: nat) -> Seq<u64>
    decreases n,
{
    if n == 0 {
        Seq::new(8, |i: int| 0u64)
    } else {
        let prev = piece_boards(pieces, (n - 1) as nat);
        let (pc, sq) = pieces[n - 1];
        let c: int = if pc & 8u8 > 0 { 1 } else { 0 };
        let pt: int = 2 + (pc & 7u8) as int;
        let bit = 1u64 << (sq as u64);
        let with_color = prev.update(c, prev[c] | bit);
        with_color.update(pt, with_color[pt] | bit)
    }
}

/// Some (colour, piece) pair claims `sq`.
pub open spec fn claimed(bbs: Seq<u64>, sq: u64) -> bool {
    exists|j: nat| j < 12 && #[trigger] bit_set(bbs[pair_side(j) as int] & bbs[pair_piece(j) as int], sq)
}

pub proof fn lemma_claimed_owned(bbs: Seq<u64>, sq: u64, k: nat, j: nat)
    requires
        j < k,
        bit_set(bbs[pair_side(j) as int] & bbs[pair_piece(j) as int], sq),
    ensures
        last_owner(bbs, sq, k) is Some,
    decreases k,
{
    if j < k - 1 {
        lemma_claimed_owned(bbs, sq, (k - 1) as nat, j);
    }
}

/// The piece codes of the pairs name colours and piece types, and the squares are on the board.
pub open spec fn pieces_valid(pieces: Seq<(u8, u8)>) -> bool {
    forall|i: int| 0 <= i < pieces.len() ==> (#[trigger] pieces[i]).0 & 7u8 < 6 && pieces[i].1 < 64
}

/// Every occupied square of the first `n` pairs' bitboards is claimed by some pair.
pub proof fn lemma_piece_boards_claimed(pieces: Seq<(u8, u8)>, n: nat)
    requires
        n <= pieces.len(),
        pieces_valid(pieces),
    ensures
        piece_boards(pieces, n).len() == 8,
        forall|sq: u64| sq < 64 && bit_set(piece_boards(pieces, n)[0] | piece_boards(pieces, n)[1] | piece_boards(pieces, n)[2], sq)
            ==> #[trigger] claimed(piece_boards(pieces, n), sq),
    decreases n,
{
    let bbs = piece_boards(pieces, n);
    if n == 0 {
        assert forall|sq: u64| sq < 64 && bit_set(bbs[0] | bbs[1] | bbs[2], sq) implies #[trigger] claimed(bbs, sq) by {
            lemma_bit_ops(0, 0, sq);
            let z0 = bbs[0];
            let z1 = bbs[1];
            let z2 = bbs[2];
            assert(z0 | z1 | z2 == 0u64) by (bit_vector)
                requires z0 == 0u64, z1 == 0u64, z2 == 0u64;
        }
    } else {
        lemma_piece_boards_claimed(pieces, (n - 1) as nat);
        let old_bbs = piece_boards(pieces, (n - 1) as nat);
        let (pc, sq) = pieces[n - 1];
        assert(pc & 7u8 < 6 && sq < 64);
        let c: int = if pc & 8u8 > 0 { 1 } else { 0 };
        let pt: int = 2 + (pc & 7u8) as int;
        let bit = 1u64 << (sq as u64);
        let sq0 = sq as u64;
        assert forall|x: u64, b: int| x < 64 && 0 <= b < 8 && bit_set(old_bbs[b], x) implies #[trigger] bit_set(bbs[b], x) by {
            lemma_bit_ops(old_bbs[b], bit, x);
            lemma_bit_ops(old_bbs[b] | bit, bit, x);
        }
        assert forall|sq2: u64| sq2 < 64 && bit_set(bbs[0] | bbs[1] | bbs[2], sq2) implies #[trigger] claimed(bbs, sq2) by {
            lemma_bit_ops(0, sq0, sq2);
            if sq2 == sq0 {
                let j: nat = (6 * c + (pt - 2)) as nat;
                assert(pair_side(j) == c && pair_piece(j) == pt);
                lemma_bit_ops(old_bbs[c], bit, sq2);
                lemma_bit_ops(bbs[c], bbs[pt], sq2);
                lemma_bit_ops(old_bbs[pt], bit, sq2);
                lemma_bit_ops(old_bbs[pt] | bit, bit, sq2);
                lemma_bit_ops(old_bbs[c] | bit, bit, sq2);
                assert(bit_set(bbs[pair_side(j) as int] & bbs[pair_piece(j) as int], sq2));
            } else {
                assert forall|b: int| 0 <= b < 8 implies #[trigger] bit_set(bbs[b], sq2) == bit_set(old_bbs[b], sq2) by {
                    lemma_bit_ops(old_bbs[b], bit, sq2);
                    lemma_bit_ops(old_bbs[b] | bit, bit, sq2);
                }
                lemma_bit_ops(bbs[0], bbs[1], sq2);
                lemma_bit_ops(bbs[0] | bbs[1], bbs[2], sq2);
                lemma_bit_ops(old_bbs[0], old_bbs[1], sq2);
                lemma_bit_ops(old_bbs[0] | old_bbs[1], old_bbs[2], sq2);
                assert(claimed(old_bbs, sq2));
                let j = choose|j: nat| j < 12 && #[trigger] bit_set(old_bbs[pair_side(j) as int] & old_bbs[pair_piece(j) as int], sq2);
                lemma_bit_ops(old_bbs[pair_side(j) as int], old_bbs[pair_piece(j) as int], sq2);
                lemma_bit_ops(bbs[pair_side(j) as int], bbs[pair_piece(j) as int], sq2);
            }
        }
    }
}

/// The bitboards of valid (piece code, square) pairs cover every occupied square.
pub proof fn lemma_piece_boards_covered(pieces: Seq<(u8, u8)>)
    requires
        pieces_valid(pieces),
    ensures
        board_covered(piece_boards(pieces, pieces.len())),
{
    let bbs = piece_boards(pieces, pieces.len());
    lemma_piece_boards_claimed(pieces, pieces.len());
    assert forall|sq: u64| sq < 64 && bit_set(bbs[0] | bbs[1] | bbs[2], sq) implies #[trigger] last_owner(bbs, sq, 12) is Some by {
        assert(claimed(bbs, sq));
        let j = choose|j: nat| j < 12 && #[trigger] bit_set(bbs[pair_side(j) as int] & bbs[pair_piece(j) as int], sq);
        lemma_claimed_owned(bbs, sq, 12, j);
    }
}

/// Builds the bitboards of a position from its (piece code, square) pairs.
pub(crate) fn bitboards(pieces: &Vec<(u8, u8)>) -> (bbs: [u64; 8])
    requires
        pieces_valid(pieces@),
    ensures
        bbs@ == piece_boards(pieces@, pieces@.len()),
        board_covered(bbs@),
        threats_covered(bbs@),
{
    let mut bbs: [u64; 8] = [0; 8];
    let mut i: usize = 0;
    proof {
        assert(bbs@ == piece_boards(pieces@, 0));
    }
    while i < pieces.len()
        invariant
            i <= pieces@.len(),
            pieces_valid(pieces@),
            bbs@ == piece_boards(pieces@, i as nat),
        decreases pieces@.len() - i,
    {
        let (pc, sq) = pieces[i];
        proof {
            assert(pieces@[i as int].0 & 7u8 < 6 && pieces@[i as int].1 < 64);
        }
        let pt = 2 + (pc & 7) as usize;
        let c: usize = if pc & 8 > 0 { 1 } else { 0 };
        let bit = 1u64 << sq;
        bbs[c] = bbs[c] | bit;
        bbs[pt] = bbs[pt] | bit;
        proof {
            assert(bbs@ == piece_boards(pieces@, (i + 1) as nat));
        }
        i += 1;
    }
    proof {
        lemma_piece_boards_covered(pieces@);
        lemma_covered_threats(bbs@);
    }
    bbs
}

/// The king bucket of a square: four per rank from the eighth rank down, files mirrored.
pub open spec fn king_bucket(sq: int) -> int {
    ThreatInputsBucketsMirrored::BUCKETS@[sq] as int
}

/// The king-bucketed piece-square index of a piece code `pc` on `sq`, seen from `perspective`
/// with its king on `ksq`.
pub open spec fn psq_index(perspective: usize, sq: usize, pc: u8, ksq: usize) -> int {
    let flip = (56 * perspective) as usize;
    let orientation: usize = if ksq % 8 > 3 { 0 } else { 7 };
    let color: usize = if pc & 8u8 > 0 { 1 } else { 0 };
    let pctype = (pc & 7u8) as usize;
    let sf_pc = ((2 * pctype + color) as usize) ^ perspective;
    let sf_pc = if sf_pc < 10 { sf_pc } else { 10usize };
    (sq ^ flip ^ orientation) + 64 * sf_pc + 64 * 11 * king_bucket(ksq as int)
}

/// The shared (bucket-free) index of a king-bucketed piece-square index; the king of the side
/// not to move, which the mirroring never puts on files a to d of its own bucket, moves to the
/// last block.
pub open spec fn factorised_index(feat: nat) -> nat {
    let feature = feat % 704;
    let square = feat % 64;
    let bucket = feat / 704;
    let piece = feature / 64;
    if piece == 10 && (square % 8 <= 3 || king_bucket(square as int) != bucket) {
        feature + 64
    } else {
        feature
    }
}

pub open spec fn psq_pairs(pieces: Seq<(u8, u8)>, our_ksq: usize, opp_ksq: usize) -> Seq<(usize, usize)>
    decreases pieces.len(),
{
    if pieces.len() == 0 {
        Seq::empty()
    } else {
        let (pc, sq) = pieces.last();
        let stm = psq_index(0, sq as usize, pc, our_ksq) as nat;
        let ntm = psq_index(1, sq as usize, pc, opp_ksq) as nat;
        psq_pairs(pieces.drop_last(), our_ksq, opp_ksq) + seq![
            ((768 + stm) as usize, (768 + ntm) as usize),
            (factorised_index(stm) as usize, factorised_index(ntm) as usize),
        ]
    }
}

pub open spec fn threat_pairs(stm: Seq<usize>, ntm: Seq<usize>) -> Seq<(usize, usize)> {
    Seq::new(stm.len(), |i: int| ((768 + 22528 + stm[i]) as usize, (768 + 22528 + ntm[i]) as usize))
}

/// The bitboards of a packed position.
pub open spec fn position_boards(pos: PackedBoard) -> Seq<u64> {
    let pieces = pieces_of(pos.occ, pos.pcs@);
    piece_boards(pieces, pieces.len())
}

/// The input features of a position: for every piece its bucketed and its factorised
/// piece-square index (side to move, side not to move), then every threat.
pub open spec fn input_features(pos: PackedBoard) -> Seq<(usize, usize)> {
    let pieces = pieces_of(pos.occ, pos.pcs@);
    let bbs = position_boards(pos);
    psq_pairs(pieces, pos.ksq as usize, pos.opp_ksq as usize) + threat_pairs(
        full_threats(bbs, 0, pos.ksq as nat),
        full_threats(bbs, 1, pos.opp_ksq as nat),
    )
}

/// The positions the inputs accept: at most 32 pieces with valid codes, kings on the board, and
/// at most 128 threats seen by the side to move (the other side sees as many).
pub open spec fn position_valid(pos: PackedBoard) -> bool {
    &&& board_well_formed(pos)
    &&& full_threats(position_boards(pos), 0, pos.ksq as nat).len() <= 128
}

/// Every piece-square pair lies below the factoriser and bucketed inputs: bucketed features from
/// 768 on, factorised ones below 768.
pub proof fn lemma_psq_pairs_bound(pieces: Seq<(u8, u8)>, our_ksq: usize, opp_ksq: usize)
    requires
        our_ksq < 64,
        opp_ksq < 64,
        forall|j: int| 0 <= j < pieces.len() ==> (#[trigger] pieces[j]).1 < 64,
    ensures
        forall|i: int|
            0 <= i < psq_pairs(pieces, our_ksq, opp_ksq).len() ==> (#[trigger] psq_pairs(pieces, our_ksq, opp_ksq)[i]).0
                < 768 + 22528 && psq_pairs(pieces, our_ksq, opp_ksq)[i].1 < 768 + 22528,
    decreases pieces.len(),
{
    lemma_psq_pairs_len(pieces, our_ksq, opp_ksq);
    if pieces.len() > 0 {
        let prev = pieces.drop_last();
        assert forall|j: int| 0 <= j < prev.len() implies (#[trigger] prev[j]).1 < 64 by {
            assert(prev[j] == pieces[j]);
        }
        lemma_psq_pairs_bound(prev, our_ksq, opp_ksq);
        lemma_psq_pairs_len(prev, our_ksq, opp_ksq);
        let (pc, sq) = pieces.last();
        assert(sq < 64) by {
            assert(pieces[pieces.len() - 1].1 < 64);
        }
        lemma_psq_index_bound(0, sq as usize, pc, our_ksq);
        lemma_psq_index_bound(1, sq as usize, pc, opp_ksq);
        let stm = psq_index(0, sq as usize, pc, our_ksq) as nat;
        let ntm = psq_index(1, sq as usize, pc, opp_ksq) as nat;
        assert(factorised_index(stm) < 768 && factorised_index(ntm) < 768);
        let a = psq_pairs(prev, our_ksq, opp_ksq);
        let tail = seq![
            ((768 + stm) as usize, (768 + ntm) as usize),
            (factorised_index(stm) as usize, factorised_index(ntm) as usize),
        ];
        assert(psq_pairs(pieces, our_ksq, opp_ksq) == a + tail);
        assert forall|i: int| 0 <= i < (a + tail).len() implies (#[trigger] (a + tail)[i]).0 < 768 + 22528 && (a + tail)[i].1 < 768 + 22528 by {
            if i < a.len() {
                assert((a + tail)[i] == a[i]);
            } else {
                assert((a + tail)[i] == tail[i - a.len()]);
            }
        }
    }
}

/// Every piece gives two piece-square pairs, the bucketed and the factorised one.
pub proof fn lemma_psq_pairs_len(pieces: Seq<(u8, u8)>, our_ksq: usize, opp_ksq: usize)
    ensures
        psq_pairs(pieces, our_ksq, opp_ksq).len() == 2 * pieces.len(),
    decreases pieces.len(),
{
    if pieces.len() > 0 {
        lemma_psq_pairs_len(pieces.drop_last(), our_ksq, opp_ksq);
    }
}

/// King-bucketed (32 buckets, mirrored) piece-square inputs with a factoriser, plus threats.
#[derive(Clone, Copy)]
pub struct ThreatInputsBucketsMirrored;

impl ThreatInputsBucketsMirrored {
    pub const BUCKETS: [usize; 64] = [
        28, 29, 30, 31, 31, 30, 29, 28,
        24, 25, 26, 27, 27, 26, 25, 24,
        20, 21, 22, 23, 23, 22, 21, 20,
        16, 17, 18, 19, 19, 18, 17, 16,
        12, 13, 14, 15, 15, 14, 13, 12,
        8, 9, 10, 11, 11, 10, 9, 8,
        4, 5, 6, 7, 7, 6, 5, 4,
        0, 1, 2, 3, 3, 2, 1, 0,
    ];
    pub const MK_SIZE: usize = 704;
    pub const BUCKET_COUNT: usize = 32;
    pub const FACTORISER_SIZE: usize = 768;
    pub const THREATS_SIZE: usize = 60720;
    pub const HALFKA_V2_SIZE: usize = 704 * 32;
    pub const THREATS_MAX_ACTIVE: usize = 128;
    pub const FACTORISER_MAX_ACTIVE: usize = 32;

    pub fn new() -> (r: Self) {
        ThreatInputsBucketsMirrored
    }

    /// The king-bucketed piece-square index of piece code `pc` on `sq`.
    pub fn make_index(perspective: usize, sq: usize, pc: u8, ksq: usize) -> (r: usize)
        requires
            ksq < 64,
            56 * perspective <= usize::MAX,
            psq_index(perspective, sq, pc, ksq) <= usize::MAX,
        ensures
            r == psq_index(perspective, sq, pc, ksq),
    {
        let flip = 56 * perspective;
        let orientation: usize = if ksq % 8 > 3 { 0 } else { 7 };
        let color: usize = if pc & 8 > 0 { 1 } else { 0 };
        let pctype = (pc & 7) as usize;
        proof {
            assert(pc & 7u8 < 8) by (bit_vector);
        }
        let sf_pc: usize = 2 * pctype + color ^ perspective;
        let sf_pc = if sf_pc < 10 { sf_pc } else { 10 };
        (sq ^ flip ^ orientation) + 64 * sf_pc + 64 * 11 * Self::BUCKETS[ksq]
    }

    /// The shared piece-square index of a king-bucketed one.
    pub fn derive_factorised_feature(feat: usize) -> (r: usize)
        ensures
            r == factorised_index(feat as nat),
            r < 768,
    {
        let mut feature = feat % 704;
        let square = feat % 64;
        let bucket = feat / 704;
        let piece = feature / 64;
        if piece == 10 && (square % 8 <= 3 || Self::BUCKETS[square] != bucket) {
            feature += 64;
        }
        feature
    }

    /// The bucketed piece-square inputs, the factoriser and every threat feature.
    pub fn num_inputs(&self) -> (r: usize)
        ensures
            r == 768 + 60720 + 22528,
            r == 768 + threat_features() + 22528,
    {
        proof {
            crate::table_sizes::lemma_threat_features_total();
        }
        Self::FACTORISER_SIZE + Self::THREATS_SIZE + Self::HALFKA_V2_SIZE
    }

    pub fn max_active(&self) -> (r: usize)
        ensures
            r == 160,
    {
        Self::THREATS_MAX_ACTIVE + Self::FACTORISER_MAX_ACTIVE
    }
}

/// The bucket table: four buckets per rank from the eighth rank down (a8 to d8 are buckets 0
/// to 3), the files e to h sharing the buckets of their mirror images a to d.
pub proof fn lemma_king_bucket(i: int)
    requires
        0 <= i < 64,
    ensures
        king_bucket(i) == 4 * (7 - i / 8) + if i % 8 < 4 { i % 8 } else { 7 - i % 8 },
{
    // by cases on the square
    if i == 0 {
    } else if i == 1 {
    } else if i == 2 {
    } else if i == 3 {
    } else if i == 4 {
    } else if i == 5 {
    } else if i == 6 {
    } else if i == 7 {
    } else if i == 8 {
    } else if i == 9 {
    } else if i == 10 {
    } else if i == 11 {
    } else if i == 12 {
    } else if i == 13 {
    } else if i == 14 {
    } else if i == 15 {
    } else if i == 16 {
    } else if i == 17 {
    } else if i == 18 {
    } else if i == 19 {
    } else if i == 20 {
    } else if i == 21 {
    } else if i == 22 {
    } else if i == 23 {
    } else if i == 24 {
    } else if i == 25 {
    } else if i == 26 {
    } else if i == 27 {
    } else if i == 28 {
    } else if i == 29 {
    } else if i == 30 {
    } else if i == 31 {
    } else if i == 32 {
    } else if i == 33 {
    } else if i == 34 {
    } else if i == 35 {
    } else if i == 36 {
    } else if i == 37 {
    } else if i == 38 {
    } else if i == 39 {
    } else if i == 40 {
    } else if i == 41 {
    } else if i == 42 {
    } else if i == 43 {
    } else if i == 44 {
    } else if i == 45 {
    } else if i == 46 {
    } else if i == 47 {
    } else if i == 48 {
    } else if i == 49 {
    } else if i == 50 {
    } else if i == 51 {
    } else if i == 52 {
    } else if i == 53 {
    } else if i == 54 {
    } else if i == 55 {
    } else if i == 56 {
    } else if i == 57 {
    } else if i == 58 {
    } else if i == 59 {
    } else if i == 60 {
    } else if i == 61 {
    } else if i == 62 {
    } else {
    }
}

/// Piece-square indices of pieces on the board fall in the king-bucketed range.
pub proof fn lemma_psq_index_bound(perspective: usize, sq: usize, pc: u8, ksq: usize)
    requires
        perspective < 2,
        sq < 64,
        ksq < 64,
    ensures
        0 <= psq_index(perspective, sq, pc, ksq) < 704 * 32,
{
    lemma_king_bucket(ksq as int);
    let flip = (56 * perspective) as usize;
    let orientation: usize = if ksq % 8 > 3 { 0 } else { 7 };
    assert((sq ^ flip ^ orientation) < 64) by (bit_vector)
        requires sq < 64usize, flip < 64usize, orientation < 64usize;
    let b = king_bucket(ksq as int);
    assert(0 <= b <= 31);
    assert(64 * 11 * b <= 64 * 11 * 31) by (nonlinear_arith)
        requires 0 <= b <= 31;
}

proof fn lemma_psq_bits(sq: usize, pc: u8, ksq: usize, o: usize)
    by (bit_vector)
    requires
        sq < 64,
        ksq < 64,
        o < 64,
    ensures
        ((sq ^ 56) ^ 56usize ^ o) == (sq ^ 0usize ^ o),
        (pc ^ 8u8) & 7u8 == pc & 7u8,
        ((pc ^ 8u8) & 8u8 > 0) == !(pc & 8u8 > 0),
        (pc & 7u8) < 8,
        (sq ^ 7usize) ^ 56usize ^ (o ^ 7usize) == sq ^ 56usize ^ o,
        (sq ^ 7usize) ^ 0usize ^ (o ^ 7usize) == sq ^ 0usize ^ o,
        (ksq ^ 7usize) < 64,
        (ksq ^ 7usize) / 8 == ksq / 8,
        (ksq ^ 7usize) % 8 == 7 - ksq % 8,
        0usize ^ 7usize == 7usize,
        7usize ^ 7usize == 0usize,
{
}

proof fn lemma_colour_slot(t: usize)
    by (bit_vector)
    requires
        t < 8,
    ensures
        ((2 * t + 1) as usize ^ 1usize) == 2 * t,
        ((2 * t) as usize ^ 1usize) == 2 * t + 1,
        ((2 * t) as usize ^ 0usize) == 2 * t,
        ((2 * t + 1) as usize ^ 0usize) == 2 * t + 1,
{
}

/// Black's piece-square index of a piece is white's index of the piece with its colour swapped
/// and its rank mirrored; and mirroring the files of the piece and of the king changes no
/// index.
pub proof fn lemma_psq_index_mirrored(perspective: usize, sq: usize, pc: u8, ksq: usize)
    requires
        perspective < 2,
        sq < 64,
        ksq < 64,
    ensures
        psq_index(1, sq ^ 56, pc ^ 8u8, ksq) == psq_index(0, sq, pc, ksq),
        psq_index(perspective, sq ^ 7, pc, ksq ^ 7) == psq_index(perspective, sq, pc, ksq),
{
    let o: usize = if ksq % 8 > 3 { 0 } else { 7 };
    lemma_psq_bits(sq, pc, ksq, o);
    lemma_king_bucket(ksq as int);
    lemma_king_bucket((ksq ^ 7) as int);
    let t = (pc & 7u8) as usize;
    lemma_colour_slot(t);
    assert(56 * perspective == if perspective == 0 { 0usize } else { 56usize });
}

proof fn lemma_psq_squares(sq: usize, k: usize, flip: usize, o: usize)
    by (bit_vector)
    requires
        sq < 64,
        k < 64,
        flip == 0 || flip == 56,
        o == 0 || o == 7,
    ensures
        (sq ^ flip ^ o) < 64,
        (k ^ flip) < 64,
        ((k ^ flip) ^ o) < 64,
        (sq == k) == ((sq ^ flip ^ o) == ((k ^ flip) ^ o)),
        ((k ^ flip) ^ o) / 8 == (k ^ flip) / 8,
        ((k ^ flip) ^ o) % 8 == if o == 7 { (7 - (k ^ flip) % 8) as usize } else { (k ^ flip) % 8 },
        0usize ^ 0usize == 0usize,
        0usize ^ 1usize == 1usize,
        1usize ^ 0usize == 1usize,
        1usize ^ 1usize == 0usize,
{
}

/// The factorised feature of a piece's bucketed feature is its bucket-free index: piece slots 0
/// to 9 by piece type and by colour relative to the perspective, 10 for the perspective's own
/// king and 11 for the other king, on the square as the perspective sees it. `k` is the square
/// of the perspective's king, which the perspective sees on `k ^ (56 * perspective)`.
#[verifier::spinoff_prover]
#[verifier::rlimit(40)]
pub proof fn lemma_factorised_psq(perspective: usize, sq: usize, pc: u8, k: usize)
    requires
        perspective < 2,
        sq < 64,
        k < 64,
        pc & 7u8 <= 5,
        pc & 7u8 == 5 ==> ((sq == k) == ((pc & 8u8 > 0) == (perspective == 1))),
    ensures
        ({
            let flip = (56 * perspective) as usize;
            let ksq = k ^ flip;
            let o: usize = if ksq % 8 > 3 { 0 } else { 7 };
            let c: usize = if pc & 8u8 > 0 { 1 } else { 0 };
            factorised_index(psq_index(perspective, sq, pc, ksq) as nat) == 64 * (2 * (pc & 7u8) as usize
                + (c ^ perspective)) + (sq ^ flip ^ o)
        }),
{
    let flip = (56 * perspective) as usize;
    assert(flip == 0 || flip == 56);
    let ksq = k ^ flip;
    let o: usize = if ksq % 8 > 3 { 0 } else { 7 };
    lemma_psq_squares(sq, k, flip, o);
    let c: usize = if pc & 8u8 > 0 { 1 } else { 0 };
    let t = (pc & 7u8) as usize;
    lemma_colour_slot(t);
    let s2 = sq ^ flip ^ o;
    let kk = ksq ^ o;
    lemma_king_bucket(ksq as int);
    lemma_king_bucket(s2 as int);
    lemma_king_bucket(kk as int);
    assert(king_bucket(kk as int) == king_bucket(ksq as int));
    assert(kk % 8 > 3);
    let sf0 = ((2 * t + c) as usize) ^ perspective;
    assert(sf0 == 2 * t + (c ^ perspective));
    let sf = if sf0 < 10 { sf0 } else { 10usize };
    let b = king_bucket(ksq as int);
    assert(0 <= b <= 31);
    let feat = s2 + 64 * sf + 64 * 11 * b;
    assert(psq_index(perspective, sq, pc, ksq) == feat);
    assert(feat % 704 == s2 + 64 * sf && feat % 64 == s2 && feat / 704 == b) by (nonlinear_arith)
        requires feat == s2 + 64 * sf + 64 * 11 * b, s2 < 64, sf <= 10, 0 <= b;
    assert((s2 + 64 * sf) / 64 == sf) by (nonlinear_arith)
        requires s2 < 64, sf <= 10;
    if t == 5 && c != perspective {
        assert(sq != k);
        assert(s2 != kk);
        if s2 % 8 > 3 {
            assert(king_bucket(s2 as int) != b);
        }
    }
}

/// The bucketed and factorised piece-square features of the pieces.
pub(crate) fn psq_features(pieces: &Vec<(u8, u8)>, our: usize, opp: usize) -> (r: Vec<(usize, usize)>)
    requires
        our < 64,
        opp < 64,
        forall|j: int| 0 <= j < pieces@.len() ==> (#[trigger] pieces@[j]).1 < 64,
    ensures
        r@ == psq_pairs(pieces@, our, opp),
{
    let mut out: Vec<(usize, usize)> = Vec::new();
    let mut i: usize = 0;
    while i < pieces.len()
        invariant
            i <= pieces@.len(),
            our < 64,
            opp < 64,
            forall|j: int| 0 <= j < pieces@.len() ==> (#[trigger] pieces@[j]).1 < 64,
            out@ == psq_pairs(pieces@.take(i as int), our, opp),
        decreases pieces@.len() - i,
    {
        let (piece, square) = pieces[i];
        proof {
            assert(pieces@[i as int].1 < 64);
            lemma_psq_index_bound(0, square as usize, piece, our);
            lemma_psq_index_bound(1, square as usize, piece, opp);
            assert(pieces@.take(i + 1).drop_last() == pieces@.take(i as int));
            assert(pieces@.take(i + 1).last() == pieces@[i as int]);
        }
        let stm = ThreatInputsBucketsMirrored::make_index(0, square as usize, piece, our);
        let ntm = ThreatInputsBucketsMirrored::make_index(1, square as usize, piece, opp);
        out.push((ThreatInputsBucketsMirrored::FACTORISER_SIZE + stm, ThreatInputsBucketsMirrored::FACTORISER_SIZE + ntm));
        out.push((ThreatInputsBucketsMirrored::derive_factorised_feature(stm), ThreatInputsBucketsMirrored::derive_factorised_feature(ntm)));
        i += 1;
    }
    proof {
        assert(pieces@.take(pieces@.len() as int) == pieces@);
    }
    out
}

/// Appends the threat features, offset past the piece-square features, pairwise.
pub(crate) fn push_threat_pairs(out: &mut Vec<(usize, usize)>, stm_feats: &Vec<usize>, ntm_feats: &Vec<usize>)
    requires
        stm_feats@.len() == ntm_feats@.len(),
        forall|j: int| 0 <= j < stm_feats@.len() ==> (#[trigger] stm_feats@[j]) < 491520 && ntm_feats@[j] < 491520,
    ensures
        final(out)@ == old(out)@ + threat_pairs(stm_feats@, ntm_feats@),
{
    let ghost base = out@;
    let mut k: usize = 0;
    while k < stm_feats.len()
        invariant
            stm_feats@.len() == ntm_feats@.len(),
            k <= stm_feats@.len(),
            forall|j: int| 0 <= j < stm_feats@.len() ==> (#[trigger] stm_feats@[j]) < 491520 && ntm_feats@[j] < 491520,
            out@ == base + threat_pairs(stm_feats@, ntm_feats@).take(k as int),
        decreases stm_feats@.len() - k,
    {
        proof {
            assert(stm_feats@[k as int] < 491520 && ntm_feats@[k as int] < 491520);
        }
        out.push((ThreatInputsBucketsMirrored::FACTORISER_SIZE + ThreatInputsBucketsMirrored::HALFKA_V2_SIZE + stm_feats[k], ThreatInputsBucketsMirrored::FACTORISER_SIZE + ThreatInputsBucketsMirrored::HALFKA_V2_SIZE + ntm_feats[k]));
        proof {
            assert(threat_pairs(stm_feats@, ntm_feats@).take(k + 1) == threat_pairs(stm_feats@, ntm_feats@).take(k as int).push(threat_pairs(stm_feats@, ntm_feats@)[k as int]));
        }
        k += 1;
    }
    proof {
        assert(threat_pairs(stm_feats@, ntm_feats@).take(k as int) == threat_pairs(stm_feats@, ntm_feats@));
    }
}

impl ThreatInputsBucketsMirrored {
    /// The input features of a position, as (side to move, side not to move) pairs: for each
    /// piece its bucketed and its factorised piece-square feature, then each threat.
    pub fn map_features(&self, calc: &ThreatFeatureCalculation, pos: &PackedBoard) -> (r: Vec<(usize, usize)>)
        requires
            calc.wf(),
            position_valid(*pos),
        ensures
            r@ == input_features(*pos),
            r@.len() == 2 * popcount(pos.occ) + full_threats(position_boards(*pos), 0, pos.ksq as nat).len(),
            forall|i: int| 0 <= i < r@.len() ==> (#[trigger] r@[i]).0 < 768 + 60720 + 22528 && r@[i].1 < 768 + 60720 + 22528,
    {
        proof {
            lemma_psq_pairs_len(pieces_of(pos.occ, pos.pcs@), pos.ksq as usize, pos.opp_ksq as usize);
        }
        let pieces = pos.pieces();
        let our = pos.our_ksq() as usize;
        let opp = pos.opp_ksq() as usize;
        proof {
            crate::bitboard::lemma_set_bits_len(pos.occ, 64);
            assert forall|j: int| 0 <= j < pieces@.len() implies (#[trigger] pieces@[j]).1 < 64 && pieces@[j].0 & 7u8 < 6 by {
                assert(crate::bitboard::squares_of(pos.occ)[j] < 64);
            }
        }
        let mut out = psq_features(&pieces, our, opp);
        let bbs = bitboards(&pieces);
        let stm_feats = map_full_threats(calc, &bbs, Side::WHITE, our);
        let ntm_feats = map_full_threats(calc, &bbs, Side::BLACK, opp);
        proof {
            crate::threat_balance::lemma_position_threat_counts_agree(*pos);
            lemma_piece_offset_bound(12);
            assert forall|j: int| 0 <= j < stm_feats@.len() implies (#[trigger] stm_feats@[j]) < 491520 && ntm_feats@[j] < 491520 by {
                assert(stm_feats@[j] < calc.total_features);
                assert(ntm_feats@[j] < calc.total_features);
            }
        }
        let ghost psq = out@;
        push_threat_pairs(&mut out, &stm_feats, &ntm_feats);
        proof {
            lemma_psq_pairs_bound(pieces@, our, opp);
            crate::table_sizes::lemma_threat_features_total();
            let tp = threat_pairs(stm_feats@, ntm_feats@);
            assert forall|i: int| 0 <= i < out@.len() implies (#[trigger] out@[i]).0 < 768 + 60720 + 22528 && out@[i].1 < 768 + 60720 + 22528 by {
                if i < psq.len() {
                    assert(out@[i] == psq[i]);
                } else {
                    let k = i - psq.len();
                    assert(out@[i] == tp[k]);
                    assert(stm_feats@[k] < calc.total_features && ntm_feats@[k] < calc.total_features);
                }
            }
        }
        out
    }
}

impl ThreatInputsBucketsMirrored {
    /// The number of threats of a position from the side to move and from the other side.
    pub fn threat_counts(&self, calc: &ThreatFeatureCalculation, pos: &PackedBoard) -> (r: (usize, usize))
        requires
            calc.wf(),
            board_well_formed(*pos),
        ensures
            r.0 == full_threats(position_boards(*pos), 0, pos.ksq as nat).len(),
            r.1 == full_threats(position_boards(*pos), 1, pos.opp_ksq as nat).len(),
            r.0 == r.1,
    {
        proof {
            crate::threat_balance::lemma_position_threat_counts_agree(*pos);
        }
        let pieces = pos.pieces();
        proof {
            crate::bitboard::lemma_set_bits_len(pos.occ, 64);
            assert forall|j: int| 0 <= j < pieces@.len() implies (#[trigger] pieces@[j]).1 < 64 && pieces@[j].0 & 7u8 < 6 by {
                assert(crate::bitboard::squares_of(pos.occ)[j] < 64);
            }
            assert(pieces_valid(pieces@));
        }
        let bbs = bitboards(&pieces);
        let stm = map_full_threats(calc, &bbs, Side::WHITE, pos.our_ksq() as usize);
        let ntm = map_full_threats(calc, &bbs, Side::BLACK, pos.opp_ksq() as usize);
        (stm.len(), ntm.len())
    }
}

/// Where a merged first-layer weight gets its factoriser share: entry `idx` of the bucketed and
/// threat weights (`output_size` per feature) adds the factoriser weight at the returned index
/// when it belongs to a bucketed piece-square feature; threat weights take none.
pub fn factorised_weight_index(idx: usize, output_size: usize) -> (r: Option<usize>)
    requires
        output_size > 0,
        768 * output_size <= usize::MAX,
    ensures
        (idx / output_size >= 22528) ==> r is None,
        (idx / output_size < 22528) ==> r == Some(
            (factorised_index((idx / output_size) as nat) * output_size + idx % output_size) as usize,
        ),
        r matches Some(v) ==> v < 768 * output_size,
{
    let feature = idx / output_size;
    if feature >= ThreatInputsBucketsMirrored::HALFKA_V2_SIZE {
        None
    } else {
        let l1 = idx % output_size;
        let factorised_feature = ThreatInputsBucketsMirrored::derive_factorised_feature(feature);
        proof {
            assert(factorised_feature * output_size + l1 < 768 * output_size) by (nonlinear_arith)
                requires factorised_feature < 768, l1 < output_size;
        }
        Some(factorised_feature * output_size + l1)
    }
}

} // verus!
