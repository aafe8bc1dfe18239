//! Squares, lines and the moves of the chess pieces, stated over square numbers
//! (`rank * 8 + file`).
use vstd::prelude::*;
use crate::bitboard::{bit_set, lemma_bit_ops, lemma_bit_ext};

verus! {

pub open spec fn rank_of(s: u64) -> u64 {
    s / 8
}

pub open spec fn file_of(s: u64) -> u64 {
    s % 8
}

pub open spec fn absdiff(a: u64, b: u64) -> int {
    if a >= b {
        a - b
    } else {
        b - a
    }
}

/// `c` lies strictly between `a` and `b`.
pub open spec fn strictly_between(a: u64, b: u64, c: u64) -> bool {
    (a < c && c < b) || (b < c && c < a)
}

/// A pawn of `side` (0 white, moving up; 1 black, moving down) on `s` captures on `t`.
pub open spec fn pawn_capture(side: u64, s: u64, t: u64) -> bool {
    &&& absdiff(file_of(s), file_of(t)) == 1
    &&& if side == 0 {
        rank_of(t) == rank_of(s) + 1
    } else {
        rank_of(t) + 1 == rank_of(s)
    }
}

/// A pawn of `side` on `s` pushes one square to `t`.
pub open spec fn pawn_step(side: u64, s: u64, t: u64) -> bool {
    if side == 0 {
        t == s + 8
    } else {
        t + 8 == s
    }
}

pub open spec fn knight_jump(s: u64, t: u64) -> bool {
    let dr = absdiff(rank_of(s), rank_of(t));
    let df = absdiff(file_of(s), file_of(t));
    (dr == 1 && df == 2) || (dr == 2 && df == 1)
}

pub open spec fn king_step(s: u64, t: u64) -> bool {
    &&& s != t
    &&& absdiff(rank_of(s), rank_of(t)) <= 1
    &&& absdiff(file_of(s), file_of(t)) <= 1
}

pub open spec fn same_rank(s: u64, t: u64) -> bool {
    rank_of(s) == rank_of(t)
}

pub open spec fn same_file(s: u64, t: u64) -> bool {
    file_of(s) == file_of(t)
}

/// The diagonal running towards h8.
pub open spec fn same_diagonal(s: u64, t: u64) -> bool {
    rank_of(s) + file_of(t) == rank_of(t) + file_of(s)
}

/// The diagonal running towards a8.
pub open spec fn same_anti_diagonal(s: u64, t: u64) -> bool {
    rank_of(s) + file_of(s) == rank_of(t) + file_of(t)
}

/// No square of `occ` lies between `s` and `t` on the rank of `s`.
pub open spec fn clear_on_rank(s: u64, t: u64, occ: u64) -> bool {
    forall|u: u64| u < 64 && same_rank(s, u) && strictly_between(s, t, u) ==> !#[trigger] bit_set(occ, u)
}

pub open spec fn clear_on_file(s: u64, t: u64, occ: u64) -> bool {
    forall|u: u64| u < 64 && same_file(s, u) && strictly_between(s, t, u) ==> !#[trigger] bit_set(occ, u)
}

pub open spec fn clear_on_diagonal(s: u64, t: u64, occ: u64) -> bool {
    forall|u: u64|
        u < 64 && same_diagonal(s, u) && strictly_between(s, t, u) ==> !#[trigger] bit_set(occ, u)
}

pub open spec fn clear_on_anti_diagonal(s: u64, t: u64, occ: u64) -> bool {
    forall|u: u64|
        u < 64 && same_anti_diagonal(s, u) && strictly_between(s, t, u) ==> !#[trigger] bit_set(
            occ,
            u,
        )
}

/// A rook on `s` reaches `t` along a rank or a file, with no square of `occ` in between.
pub open spec fn rook_sees(s: u64, t: u64, occ: u64) -> bool {
    &&& s != t
    &&& (same_rank(s, t) && clear_on_rank(s, t, occ)) || (same_file(s, t) && clear_on_file(s, t, occ))
}

/// A bishop on `s` reaches `t` along a diagonal, with no square of `occ` in between.
pub open spec fn bishop_sees(s: u64, t: u64, occ: u64) -> bool {
    &&& s != t
    &&& (same_diagonal(s, t) && clear_on_diagonal(s, t, occ)) || (same_anti_diagonal(s, t)
        && clear_on_anti_diagonal(s, t, occ))
}

/// The bitboard of the squares below `n` that satisfy `f`.
pub open spec fn board_below(f: spec_fn(u64) -> bool, n: nat) -> u64
    decreases n,
{
    if n == 0 {
        0
    } else {
        board_below(f, (n - 1) as nat) | if f((n - 1) as u64) {
            1u64 << ((n - 1) as u64)
        } else {
            0u64
        }
    }
}

/// The bitboard of the squares that satisfy `f`.
pub open spec fn board_of(f: spec_fn(u64) -> bool) -> u64 {
    board_below(f, 64)
}

pub proof fn lemma_board_below(f: spec_fn(u64) -> bool, n: nat, t: u64)
    requires
        n <= 64,
        t < 64,
    ensures
        bit_set(board_below(f, n), t) == (t < n && f(t)),
    decreases n,
{
    if n > 0 {
        lemma_board_below(f, (n - 1) as nat, t);
        let m = (n - 1) as u64;
        let prev = board_below(f, (n - 1) as nat);
        lemma_bit_ops(prev, m, t);
        if f(m) {
            assert(board_below(f, n) == prev | (1u64 << m));
            lemma_bit_ops(prev, 1u64 << m, t);
        } else {
            assert(board_below(f, n) == prev | 0u64);
            lemma_bit_ops(prev, 0u64, t);
        }
    } else {
        lemma_bit_ops(0u64, 0u64, t);
    }
}

pub proof fn lemma_board_of(f: spec_fn(u64) -> bool, t: u64)
    requires
        t < 64,
    ensures
        bit_set(board_of(f), t) == f(t),
{
    lemma_board_below(f, 64, t);
}

/// A bitboard whose squares are exactly those satisfying `f` is `board_of(f)`.
pub proof fn lemma_is_board_of(b: u64, f: spec_fn(u64) -> bool)
    requires
        forall|t: u64| t < 64 ==> #[trigger] bit_set(b, t) == f(t),
    ensures
        b == board_of(f),
{
    assert forall|t: u64| t < 64 implies #[trigger] bit_set(b, t) == bit_set(board_of(f), t) by {
        lemma_board_of(f, t);
    }
    lemma_bit_ext(b, board_of(f));
}

pub open spec fn pawn_captures(side: u64, s: u64) -> u64 {
    board_of(|t: u64| pawn_capture(side, s, t))
}

pub open spec fn knight_attacks(s: u64) -> u64 {
    board_of(|t: u64| knight_jump(s, t))
}

pub open spec fn king_attacks(s: u64) -> u64 {
    board_of(|t: u64| king_step(s, t))
}

pub open spec fn rook_attacks(s: u64, occ: u64) -> u64 {
    board_of(|t: u64| rook_sees(s, t, occ))
}

pub open spec fn bishop_attacks(s: u64, occ: u64) -> u64 {
    board_of(|t: u64| bishop_sees(s, t, occ))
}

pub open spec fn queen_attacks(s: u64, occ: u64) -> u64 {
    board_of(|t: u64| rook_sees(s, t, occ) || bishop_sees(s, t, occ))
}

pub open spec fn pawn_pushes(side: u64, s: u64) -> u64 {
    board_of(|t: u64| pawn_step(side, s, t))
}

/// Knights, kings, rooks and bishops attack back the squares they attack, through the same
/// occupancy.
pub proof fn lemma_attacks_symmetric(s: u64, t: u64, occ: u64)
    ensures
        knight_jump(s, t) == knight_jump(t, s),
        king_step(s, t) == king_step(t, s),
        rook_sees(s, t, occ) == rook_sees(t, s, occ),
        bishop_sees(s, t, occ) == bishop_sees(t, s, occ),
{
    assert(clear_on_rank(s, t, occ) ==> same_rank(s, t) ==> clear_on_rank(t, s, occ)) by {
        if clear_on_rank(s, t, occ) && same_rank(s, t) {
            assert forall|u: u64| u < 64 && same_rank(t, u) && strictly_between(t, s, u) implies !#[trigger] bit_set(occ, u) by {
                assert(same_rank(s, u));
            }
        }
    }
    assert(clear_on_rank(t, s, occ) ==> same_rank(s, t) ==> clear_on_rank(s, t, occ)) by {
        if clear_on_rank(t, s, occ) && same_rank(s, t) {
            assert forall|u: u64| u < 64 && same_rank(s, u) && strictly_between(s, t, u) implies !#[trigger] bit_set(occ, u) by {
                assert(same_rank(t, u));
            }
        }
    }
    assert(clear_on_file(s, t, occ) ==> same_file(s, t) ==> clear_on_file(t, s, occ)) by {
        if clear_on_file(s, t, occ) && same_file(s, t) {
            assert forall|u: u64| u < 64 && same_file(t, u) && strictly_between(t, s, u) implies !#[trigger] bit_set(occ, u) by {
                assert(same_file(s, u));
            }
        }
    }
    assert(clear_on_file(t, s, occ) ==> same_file(s, t) ==> clear_on_file(s, t, occ)) by {
        if clear_on_file(t, s, occ) && same_file(s, t) {
            assert forall|u: u64| u < 64 && same_file(s, u) && strictly_between(s, t, u) implies !#[trigger] bit_set(occ, u) by {
                assert(same_file(t, u));
            }
        }
    }
    assert(clear_on_diagonal(s, t, occ) ==> same_diagonal(s, t) ==> clear_on_diagonal(t, s, occ)) by {
        if clear_on_diagonal(s, t, occ) && same_diagonal(s, t) {
            assert forall|u: u64| u < 64 && same_diagonal(t, u) && strictly_between(t, s, u) implies !#[trigger] bit_set(occ, u) by {
                assert(same_diagonal(s, u));
            }
        }
    }
    assert(clear_on_diagonal(t, s, occ) ==> same_diagonal(s, t) ==> clear_on_diagonal(s, t, occ)) by {
        if clear_on_diagonal(t, s, occ) && same_diagonal(s, t) {
            assert forall|u: u64| u < 64 && same_diagonal(s, u) && strictly_between(s, t, u) implies !#[trigger] bit_set(occ, u) by {
                assert(same_diagonal(t, u));
            }
        }
    }
    assert(clear_on_anti_diagonal(s, t, occ) ==> same_anti_diagonal(s, t) ==> clear_on_anti_diagonal(t, s, occ)) by {
        if clear_on_anti_diagonal(s, t, occ) && same_anti_diagonal(s, t) {
            assert forall|u: u64| u < 64 && same_anti_diagonal(t, u) && strictly_between(t, s, u) implies !#[trigger] bit_set(occ, u) by {
                assert(same_anti_diagonal(s, u));
            }
        }
    }
    assert(clear_on_anti_diagonal(t, s, occ) ==> same_anti_diagonal(s, t) ==> clear_on_anti_diagonal(s, t, occ)) by {
        if clear_on_anti_diagonal(t, s, occ) && same_anti_diagonal(s, t) {
            assert forall|u: u64| u < 64 && same_anti_diagonal(s, u) && strictly_between(s, t, u) implies !#[trigger] bit_set(occ, u) by {
                assert(same_anti_diagonal(t, u));
            }
        }
    }
}

/// How a mirror moves a square: `o` bit 3..5 set flips the rank, bits 0..2 the file.
pub proof fn lemma_mirror_coords(s: u64, o: u64)
    by (bit_vector)
    requires
        s < 64,
        o == 0 || o == 7 || o == 56 || o == 63,
    ensures
        s ^ o < 64,
        (s ^ o) ^ o == s,
        (s ^ o) / 8 == if o >= 56 { (7 - s / 8) as u64 } else { s / 8 },
        (s ^ o) % 8 == if o % 8 == 7 { (7 - s % 8) as u64 } else { s % 8 },
{
}

/// Mirroring the board keeps the steps of knights and kings, and turns a pawn capture into
/// one of the same colour (file mirror) or of the other colour (rank mirror).
pub proof fn lemma_steps_mirrored(side: u64, s: u64, t: u64, o: u64)
    requires
        side < 2,
        s < 64,
        t < 64,
        o == 0 || o == 7 || o == 56 || o == 63,
    ensures
        knight_jump(s ^ o, t ^ o) == knight_jump(s, t),
        king_step(s ^ o, t ^ o) == king_step(s, t),
        pawn_capture(if o >= 56 { (1 - side) as u64 } else { side }, s ^ o, t ^ o) == pawn_capture(side, s, t),
        pawn_step(if o >= 56 { (1 - side) as u64 } else { side }, s ^ o, t ^ o) == pawn_step(side, s, t),
{
    lemma_mirror_coords(s, o);
    lemma_mirror_coords(t, o);
}


proof fn lemma_rank_mirrored(s: u64, t: u64, occ: u64, occ2: u64, o: u64)
    requires
        s < 64,
        t < 64,
        o == 0 || o == 7 || o == 56 || o == 63,
        same_rank(s, t),
        forall|u: u64| u < 64 ==> #[trigger] bit_set(occ2, u ^ o) == bit_set(occ, u),
    ensures
        same_rank(s ^ o, t ^ o),
        clear_on_rank(s ^ o, t ^ o, occ2) == clear_on_rank(s, t, occ),
{
    lemma_mirror_coords(s, o);
    lemma_mirror_coords(t, o);
    let s2 = s ^ o;
    let t2 = t ^ o;
    if clear_on_rank(s, t, occ) {
        assert forall|u2: u64| u2 < 64 && same_rank(s2, u2) && strictly_between(s2, t2, u2) implies !#[trigger] bit_set(occ2, u2) by {
            lemma_mirror_coords(u2, o);
            let u = u2 ^ o;
            assert(same_rank(s, u));
            assert(strictly_between(s, t, u));
            assert(bit_set(occ2, u ^ o) == bit_set(occ, u));
        }
    }
    if clear_on_rank(s2, t2, occ2) {
        assert forall|u: u64| u < 64 && same_rank(s, u) && strictly_between(s, t, u) implies !#[trigger] bit_set(occ, u) by {
            lemma_mirror_coords(u, o);
            assert(same_rank(s2, u ^ o));
            assert(strictly_between(s2, t2, u ^ o));
            assert(bit_set(occ2, u ^ o) == bit_set(occ, u));
        }
    }
}

proof fn lemma_file_mirrored(s: u64, t: u64, occ: u64, occ2: u64, o: u64)
    requires
        s < 64,
        t < 64,
        o == 0 || o == 7 || o == 56 || o == 63,
        same_file(s, t),
        forall|u: u64| u < 64 ==> #[trigger] bit_set(occ2, u ^ o) == bit_set(occ, u),
    ensures
        same_file(s ^ o, t ^ o),
        clear_on_file(s ^ o, t ^ o, occ2) == clear_on_file(s, t, occ),
{
    lemma_mirror_coords(s, o);
    lemma_mirror_coords(t, o);
    let s2 = s ^ o;
    let t2 = t ^ o;
    if clear_on_file(s, t, occ) {
        assert forall|u2: u64| u2 < 64 && same_file(s2, u2) && strictly_between(s2, t2, u2) implies !#[trigger] bit_set(occ2, u2) by {
            lemma_mirror_coords(u2, o);
            let u = u2 ^ o;
            assert(same_file(s, u));
            assert(strictly_between(s, t, u));
            assert(bit_set(occ2, u ^ o) == bit_set(occ, u));
        }
    }
    if clear_on_file(s2, t2, occ2) {
        assert forall|u: u64| u < 64 && same_file(s, u) && strictly_between(s, t, u) implies !#[trigger] bit_set(occ, u) by {
            lemma_mirror_coords(u, o);
            assert(same_file(s2, u ^ o));
            assert(strictly_between(s2, t2, u ^ o));
            assert(bit_set(occ2, u ^ o) == bit_set(occ, u));
        }
    }
}

proof fn lemma_diagonal_kept_mirrored(s: u64, t: u64, occ: u64, occ2: u64, o: u64)
    requires
        s < 64,
        t < 64,
        o == 0 || o == 63,
        same_diagonal(s, t),
        forall|u: u64| u < 64 ==> #[trigger] bit_set(occ2, u ^ o) == bit_set(occ, u),
    ensures
        same_diagonal(s ^ o, t ^ o),
        clear_on_diagonal(s ^ o, t ^ o, occ2) == clear_on_diagonal(s, t, occ),
{
    lemma_mirror_coords(s, o);
    lemma_mirror_coords(t, o);
    let s2 = s ^ o;
    let t2 = t ^ o;
    if clear_on_diagonal(s, t, occ) {
        assert forall|u2: u64| u2 < 64 && same_diagonal(s2, u2) && strictly_between(s2, t2, u2) implies !#[trigger] bit_set(occ2, u2) by {
            lemma_mirror_coords(u2, o);
            let u = u2 ^ o;
            assert(same_diagonal(s, u));
            assert(strictly_between(s, t, u));
            assert(bit_set(occ2, u ^ o) == bit_set(occ, u));
        }
    }
    if clear_on_diagonal(s2, t2, occ2) {
        assert forall|u: u64| u < 64 && same_diagonal(s, u) && strictly_between(s, t, u) implies !#[trigger] bit_set(occ, u) by {
            lemma_mirror_coords(u, o);
            assert(same_diagonal(s2, u ^ o));
            assert(strictly_between(s2, t2, u ^ o));
            assert(bit_set(occ2, u ^ o) == bit_set(occ, u));
        }
    }
}

proof fn lemma_anti_diagonal_kept_mirrored(s: u64, t: u64, occ: u64, occ2: u64, o: u64)
    requires
        s < 64,
        t < 64,
        o == 0 || o == 63,
        same_anti_diagonal(s, t),
        forall|u: u64| u < 64 ==> #[trigger] bit_set(occ2, u ^ o) == bit_set(occ, u),
    ensures
        same_anti_diagonal(s ^ o, t ^ o),
        clear_on_anti_diagonal(s ^ o, t ^ o, occ2) == clear_on_anti_diagonal(s, t, occ),
{
    lemma_mirror_coords(s, o);
    lemma_mirror_coords(t, o);
    let s2 = s ^ o;
    let t2 = t ^ o;
    if clear_on_anti_diagonal(s, t, occ) {
        assert forall|u2: u64| u2 < 64 && same_anti_diagonal(s2, u2) && strictly_between(s2, t2, u2) implies !#[trigger] bit_set(occ2, u2) by {
            lemma_mirror_coords(u2, o);
            let u = u2 ^ o;
            assert(same_anti_diagonal(s, u));
            assert(strictly_between(s, t, u));
            assert(bit_set(occ2, u ^ o) == bit_set(occ, u));
        }
    }
    if clear_on_anti_diagonal(s2, t2, occ2) {
        assert forall|u: u64| u < 64 && same_anti_diagonal(s, u) && strictly_between(s, t, u) implies !#[trigger] bit_set(occ, u) by {
            lemma_mirror_coords(u, o);
            assert(same_anti_diagonal(s2, u ^ o));
            assert(strictly_between(s2, t2, u ^ o));
            assert(bit_set(occ2, u ^ o) == bit_set(occ, u));
        }
    }
}

proof fn lemma_diagonal_turned_mirrored(s: u64, t: u64, occ: u64, occ2: u64, o: u64)
    requires
        s < 64,
        t < 64,
        o == 7 || o == 56,
        same_diagonal(s, t),
        forall|u: u64| u < 64 ==> #[trigger] bit_set(occ2, u ^ o) == bit_set(occ, u),
    ensures
        same_anti_diagonal(s ^ o, t ^ o),
        clear_on_anti_diagonal(s ^ o, t ^ o, occ2) == clear_on_diagonal(s, t, occ),
{
    lemma_mirror_coords(s, o);
    lemma_mirror_coords(t, o);
    let s2 = s ^ o;
    let t2 = t ^ o;
    if clear_on_diagonal(s, t, occ) {
        assert forall|u2: u64| u2 < 64 && same_anti_diagonal(s2, u2) && strictly_between(s2, t2, u2) implies !#[trigger] bit_set(occ2, u2) by {
            lemma_mirror_coords(u2, o);
            let u = u2 ^ o;
            assert(same_diagonal(s, u));
            assert(strictly_between(s, t, u));
            assert(bit_set(occ2, u ^ o) == bit_set(occ, u));
        }
    }
    if clear_on_anti_diagonal(s2, t2, occ2) {
        assert forall|u: u64| u < 64 && same_diagonal(s, u) && strictly_between(s, t, u) implies !#[trigger] bit_set(occ, u) by {
            lemma_mirror_coords(u, o);
            assert(same_anti_diagonal(s2, u ^ o));
            assert(strictly_between(s2, t2, u ^ o));
            assert(bit_set(occ2, u ^ o) == bit_set(occ, u));
        }
    }
}

proof fn lemma_anti_diagonal_turned_mirrored(s: u64, t: u64, occ: u64, occ2: u64, o: u64)
    requires
        s < 64,
        t < 64,
        o == 7 || o == 56,
        same_anti_diagonal(s, t),
        forall|u: u64| u < 64 ==> #[trigger] bit_set(occ2, u ^ o) == bit_set(occ, u),
    ensures
        same_diagonal(s ^ o, t ^ o),
        clear_on_diagonal(s ^ o, t ^ o, occ2) == clear_on_anti_diagonal(s, t, occ),
{
    lemma_mirror_coords(s, o);
    lemma_mirror_coords(t, o);
    let s2 = s ^ o;
    let t2 = t ^ o;
    if clear_on_anti_diagonal(s, t, occ) {
        assert forall|u2: u64| u2 < 64 && same_diagonal(s2, u2) && strictly_between(s2, t2, u2) implies !#[trigger] bit_set(occ2, u2) by {
            lemma_mirror_coords(u2, o);
            let u = u2 ^ o;
            assert(same_anti_diagonal(s, u));
            assert(strictly_between(s, t, u));
            assert(bit_set(occ2, u ^ o) == bit_set(occ, u));
        }
    }
    if clear_on_diagonal(s2, t2, occ2) {
        assert forall|u: u64| u < 64 && same_anti_diagonal(s, u) && strictly_between(s, t, u) implies !#[trigger] bit_set(occ, u) by {
            lemma_mirror_coords(u, o);
            assert(same_diagonal(s2, u ^ o));
            assert(strictly_between(s2, t2, u ^ o));
            assert(bit_set(occ2, u ^ o) == bit_set(occ, u));
        }
    }
}

/// Mirroring the board and its occupancy keeps what rooks and bishops reach.
pub proof fn lemma_slides_mirrored(s: u64, t: u64, occ: u64, occ2: u64, o: u64)
    requires
        s < 64,
        t < 64,
        o == 0 || o == 7 || o == 56 || o == 63,
        forall|u: u64| u < 64 ==> #[trigger] bit_set(occ2, u ^ o) == bit_set(occ, u),
    ensures
        rook_sees(s ^ o, t ^ o, occ2) == rook_sees(s, t, occ),
        bishop_sees(s ^ o, t ^ o, occ2) == bishop_sees(s, t, occ),
{
    lemma_mirror_coords(s, o);
    lemma_mirror_coords(t, o);
    if same_rank(s, t) {
        lemma_rank_mirrored(s, t, occ, occ2, o);
    }
    if same_file(s, t) {
        lemma_file_mirrored(s, t, occ, occ2, o);
    }
    if o == 0 || o == 63 {
        if same_diagonal(s, t) {
            lemma_diagonal_kept_mirrored(s, t, occ, occ2, o);
        }
        if same_anti_diagonal(s, t) {
            lemma_anti_diagonal_kept_mirrored(s, t, occ, occ2, o);
        }
    } else {
        if same_diagonal(s, t) {
            lemma_diagonal_turned_mirrored(s, t, occ, occ2, o);
        }
        if same_anti_diagonal(s, t) {
            lemma_anti_diagonal_turned_mirrored(s, t, occ, occ2, o);
        }
    }
}

/// A pawn captures one step along a diagonal, which a bishop on the captured square reaches
/// back whatever the occupancy.
pub proof fn lemma_pawn_capture_diagonal(side: u64, s: u64, t: u64, occ: u64)
    requires
        s < 64,
        t < 64,
        pawn_capture(side, s, t),
    ensures
        bishop_sees(t, s, occ),
{
    if same_diagonal(t, s) {
        assert forall|u: u64| u < 64 && same_diagonal(t, u) && strictly_between(t, s, u) implies !#[trigger] bit_set(occ, u) by {
            assert(u == 8 * rank_of(u) + file_of(u));
            assert(t == 8 * rank_of(t) + file_of(t));
            assert(s == 8 * rank_of(s) + file_of(s));
        }
    } else {
        assert forall|u: u64| u < 64 && same_anti_diagonal(t, u) && strictly_between(t, s, u) implies !#[trigger] bit_set(occ, u) by {
            assert(u == 8 * rank_of(u) + file_of(u));
            assert(t == 8 * rank_of(t) + file_of(t));
            assert(s == 8 * rank_of(s) + file_of(s));
        }
    }
}

} // verus!
