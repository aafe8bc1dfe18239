//! The bucketed threat inputs see as many threats from either side: mirroring the board, or
//! turning it round with the colours swapped, keeps the number of threat features; and on
//! legal boards no bucketed threat feature is emitted twice.
use vstd::prelude::*;
use crate::bitboard::{bit_set, squares_of, lemma_bit_ops, lemma_set_bits_len, lemma_set_bits_complete};
use crate::full_threats::{
    color_on, piece_on, board_covered, lemma_owner_valid, last_owner, pair_side, pair_piece,
    piece_attack_set, pseudo_attack_set, target_set, square_offset, square_count,
    lemma_square_offset_mono, lemma_square_target_unique, lemma_attacks_within_targets,
    lemma_square_offset_bound,
};
use crate::bitboard::{count_below, popcount, lemma_count_below_lt_total};
use crate::geometry::{
    pawn_captures, pawn_capture, lemma_board_of, knight_jump, king_step, rook_sees, bishop_sees,
    lemma_attacks_symmetric, lemma_mirror_coords, lemma_steps_mirrored, lemma_slides_mirrored,
    lemma_pawn_capture_diagonal,
};
use crate::threat_balance::{boards_consistent, colors_exact, owned, lemma_owner_of, lemma_owned_piece};
use crate::threat_inputs::{
    piece_threat, piece_threat_ok, pawn_capture_side, attack_index, range_end, offset_knight,
    offset_bishop, offset_rook, offset_queen, offset_king, offset_end, lemma_offset_map_bound,
    code_on, bucket_attacks, bucket_dests, bucket_froms, bucket_side,
    bucket_threats, bucket_dest_list, offset_map, pawn_slots, slider_slots, king_slots,
    oriented_boards, swapped_boards, position_boards, legal_boards, legal_position,
    bucket_threats_ok, lemma_bucket_threats_ok, lemma_legal_oriented, lemma_legal_position_in_range,
};
use crate::bitboard::lemma_byte_swapped_bits;
use crate::board::{PackedBoard, board_well_formed};
use crate::threat_balance::lemma_position_boards_consistent;

verus! {

/// The threat of the piece (`side`, `piece`) on `from` against `to` has a bucketed feature.
pub open spec fn bucket_feature(bbs: Seq<u64>, side: nat, piece: nat, from: u64, to: u64) -> bool {
    piece_threat(piece, from as nat, to as nat, code_on(bbs, to), bit_set(bbs[(1 - side) as int], to)) is Some
}

/// The threats with a bucketed feature of the piece on `from`, as (from, to) pairs.
pub open spec fn bucket_square_pairs(bbs: Seq<u64>, side: nat, piece: nat, from: u64) -> Set<(u64, u64)> {
    Set::new(
        |pr: (u64, u64)|
            pr.0 == from && pr.1 < 64 && bit_set(
                bucket_attacks(bbs, side, piece, from) & (bbs[0] | bbs[1]),
                pr.1,
            ) && bucket_feature(bbs, side, piece, from, pr.1),
    )
}

spec fn listed_pairs(bbs: Seq<u64>, side: nat, piece: nat, from: u64, dests: Seq<usize>) -> Set<(u64, u64)> {
    Set::new(
        |pr: (u64, u64)|
            pr.0 == from && pr.1 < 64 && dests.contains(pr.1 as usize) && bucket_feature(
                bbs,
                side,
                piece,
                from,
                pr.1,
            ),
    )
}

proof fn lemma_listed_count(bbs: Seq<u64>, side: nat, piece: nat, from: u64, dests: Seq<usize>)
    requires
        dests.no_duplicates(),
        forall|i: int| 0 <= i < dests.len() ==> #[trigger] dests[i] < 64,
    ensures
        listed_pairs(bbs, side, piece, from, dests).finite(),
        bucket_dests(bbs, side, piece, from, dests).len() == listed_pairs(bbs, side, piece, from, dests).len(),
    decreases dests.len(),
{
    let s = listed_pairs(bbs, side, piece, from, dests);
    if dests.len() == 0 {
        assert(s =~= Set::empty());
    } else {
        let prev = dests.drop_last();
        let t = dests.last();
        assert(prev.no_duplicates()) by {
            assert forall|i: int, j: int| 0 <= i < prev.len() && 0 <= j < prev.len() && i != j implies prev[i] != prev[j] by {
                assert(prev[i] == dests[i] && prev[j] == dests[j]);
            }
        }
        assert forall|i: int| 0 <= i < prev.len() implies #[trigger] prev[i] < 64 by {
            assert(prev[i] == dests[i]);
        }
        lemma_listed_count(bbs, side, piece, from, prev);
        let s0 = listed_pairs(bbs, side, piece, from, prev);
        assert forall|x: usize| #[trigger] dests.contains(x) == (prev.contains(x) || x == t) by {
            if dests.contains(x) {
                let i = choose|i: int| 0 <= i < dests.len() && dests[i] == x;
                if i < prev.len() {
                    assert(prev[i] == x);
                }
            }
            if prev.contains(x) {
                let i = choose|i: int| 0 <= i < prev.len() && prev[i] == x;
                assert(dests[i] == x);
            }
            if x == t {
                assert(dests[dests.len() - 1] == x);
            }
        }
        assert(!prev.contains(t)) by {
            if prev.contains(t) {
                let i = choose|i: int| 0 <= i < prev.len() && prev[i] == t;
                assert(dests[i] == dests[dests.len() - 1]);
            }
        }
        assert(t < 64) by {
            assert(dests[dests.len() - 1] < 64);
        }
        let pt = (from, t as u64);
        if bucket_feature(bbs, side, piece, from, t as u64) {
            assert(s =~= s0.insert(pt));
            assert(!s0.contains(pt));
        } else {
            assert(s =~= s0);
        }
    }
}

/// The bucketed features of the piece on `from` are as many as its threats that have one.
proof fn lemma_square_count(bbs: Seq<u64>, side: nat, piece: nat, from: u64)
    ensures
        bucket_square_pairs(bbs, side, piece, from).finite(),
        bucket_dests(bbs, side, piece, from, bucket_dest_list(bbs, side, piece, from)).len()
            == bucket_square_pairs(bbs, side, piece, from).len(),
{
    let b = bucket_attacks(bbs, side, piece, from) & (bbs[0] | bbs[1]);
    let dests = squares_of(b);
    lemma_set_bits_len(b, 64);
    assert(dests.no_duplicates()) by {
        assert forall|i: int, j: int| 0 <= i < dests.len() && 0 <= j < dests.len() && i != j implies dests[i] != dests[j] by {
            if i < j {
                assert(dests[i] < dests[j]);
            } else {
                assert(dests[j] < dests[i]);
            }
        }
    }
    lemma_listed_count(bbs, side, piece, from, dests);
    assert forall|pr: (u64, u64)| #[trigger] listed_pairs(bbs, side, piece, from, dests).contains(pr)
        == bucket_square_pairs(bbs, side, piece, from).contains(pr) by {
        if pr.1 < 64 {
            if bit_set(b, pr.1) {
                lemma_set_bits_complete(b, 64, pr.1);
            }
            if dests.contains(pr.1 as usize) {
                let i = choose|i: int| 0 <= i < dests.len() && dests[i] == pr.1 as usize;
                assert(bit_set(b, dests[i] as u64));
            }
        }
    }
    assert(listed_pairs(bbs, side, piece, from, dests) =~= bucket_square_pairs(bbs, side, piece, from));
}

spec fn froms_pairs(bbs: Seq<u64>, side: nat, piece: nat, froms: Seq<usize>) -> Set<(u64, u64)> {
    Set::new(
        |pr: (u64, u64)|
            pr.0 < 64 && froms.contains(pr.0 as usize) && bucket_square_pairs(bbs, side, piece, pr.0).contains(pr),
    )
}

proof fn lemma_froms_count(bbs: Seq<u64>, side: nat, piece: nat, froms: Seq<usize>)
    requires
        froms.no_duplicates(),
        forall|i: int| 0 <= i < froms.len() ==> #[trigger] froms[i] < 64,
    ensures
        froms_pairs(bbs, side, piece, froms).finite(),
        bucket_froms(bbs, side, piece, froms).len() == froms_pairs(bbs, side, piece, froms).len(),
    decreases froms.len(),
{
    let s = froms_pairs(bbs, side, piece, froms);
    if froms.len() == 0 {
        assert(s =~= Set::empty());
    } else {
        let prev = froms.drop_last();
        let f = froms.last();
        assert(prev.no_duplicates()) by {
            assert forall|i: int, j: int| 0 <= i < prev.len() && 0 <= j < prev.len() && i != j implies prev[i] != prev[j] by {
                assert(prev[i] == froms[i] && prev[j] == froms[j]);
            }
        }
        assert forall|i: int| 0 <= i < prev.len() implies #[trigger] prev[i] < 64 by {
            assert(prev[i] == froms[i]);
        }
        lemma_froms_count(bbs, side, piece, prev);
        lemma_square_count(bbs, side, piece, f as u64);
        let s0 = froms_pairs(bbs, side, piece, prev);
        let s1 = bucket_square_pairs(bbs, side, piece, f as u64);
        assert forall|x: usize| #[trigger] froms.contains(x) == (prev.contains(x) || x == f) by {
            if froms.contains(x) {
                let i = choose|i: int| 0 <= i < froms.len() && froms[i] == x;
                if i < prev.len() {
                    assert(prev[i] == x);
                }
            }
            if prev.contains(x) {
                let i = choose|i: int| 0 <= i < prev.len() && prev[i] == x;
                assert(froms[i] == x);
            }
            if x == f {
                assert(froms[froms.len() - 1] == x);
            }
        }
        assert(!prev.contains(f)) by {
            if prev.contains(f) {
                let i = choose|i: int| 0 <= i < prev.len() && prev[i] == f;
                assert(froms[i] == froms[froms.len() - 1]);
            }
        }
        assert(f < 64) by {
            assert(froms[froms.len() - 1] < 64);
        }
        assert(s =~= s0 + s1);
        assert(s0.disjoint(s1));
        vstd::set_lib::lemma_set_disjoint_lens(s0, s1);
    }
}

spec fn kind_pairs(bbs: Seq<u64>, side: nat, piece: nat) -> Set<(u64, u64)> {
    Set::new(
        |pr: (u64, u64)|
            pr.0 < 64 && bit_set(bbs[side as int] & bbs[piece as int], pr.0) && bucket_square_pairs(
                bbs,
                side,
                piece,
                pr.0,
            ).contains(pr),
    )
}

proof fn lemma_kind_count(bbs: Seq<u64>, side: nat, piece: nat)
    ensures
        kind_pairs(bbs, side, piece).finite(),
        bucket_froms(bbs, side, piece, squares_of(bbs[side as int] & bbs[piece as int])).len()
            == kind_pairs(bbs, side, piece).len(),
{
    let b = bbs[side as int] & bbs[piece as int];
    let froms = squares_of(b);
    lemma_set_bits_len(b, 64);
    assert(froms.no_duplicates()) by {
        assert forall|i: int, j: int| 0 <= i < froms.len() && 0 <= j < froms.len() && i != j implies froms[i] != froms[j] by {
            if i < j {
                assert(froms[i] < froms[j]);
            } else {
                assert(froms[j] < froms[i]);
            }
        }
    }
    lemma_froms_count(bbs, side, piece, froms);
    assert forall|pr: (u64, u64)| #[trigger] froms_pairs(bbs, side, piece, froms).contains(pr)
        == kind_pairs(bbs, side, piece).contains(pr) by {
        if pr.0 < 64 {
            if bit_set(b, pr.0) {
                lemma_set_bits_complete(b, 64, pr.0);
            }
            if froms.contains(pr.0 as usize) {
                let i = choose|i: int| 0 <= i < froms.len() && froms[i] == pr.0 as usize;
                assert(bit_set(b, froms[i] as u64));
            }
        }
    }
    assert(froms_pairs(bbs, side, piece, froms) =~= kind_pairs(bbs, side, piece));
}

spec fn side_pairs(bbs: Seq<u64>, side: nat, n: nat) -> Set<(u64, u64)> {
    Set::new(
        |pr: (u64, u64)|
            pr.0 < 64 && owned(bbs, pr.0) && color_on(bbs, pr.0) == side && 2 <= piece_on(bbs, pr.0)
                < 2 + n && bucket_square_pairs(bbs, side, piece_on(bbs, pr.0), pr.0).contains(pr),
    )
}

proof fn lemma_side_count(bbs: Seq<u64>, side: nat, n: nat)
    requires
        boards_consistent(bbs),
        side < 2,
        n <= 6,
    ensures
        side_pairs(bbs, side, n).finite(),
        bucket_side(bbs, side, n).len() == side_pairs(bbs, side, n).len(),
    decreases n,
{
    let s = side_pairs(bbs, side, n);
    if n == 0 {
        assert(s =~= Set::empty());
    } else {
        let piece = (2 + n - 1) as nat;
        lemma_side_count(bbs, side, (n - 1) as nat);
        lemma_kind_count(bbs, side, piece);
        let s0 = side_pairs(bbs, side, (n - 1) as nat);
        let s1 = kind_pairs(bbs, side, piece);
        assert forall|pr: (u64, u64)| #[trigger] s.contains(pr) == (s0.contains(pr) || s1.contains(pr)) by {
            if pr.0 < 64 {
                lemma_owner_of(bbs, side, piece, pr.0);
            }
        }
        assert(s =~= s0 + s1);
        assert(s0.disjoint(s1)) by {
            assert forall|pr: (u64, u64)| s1.contains(pr) implies !s0.contains(pr) by {
                lemma_owner_of(bbs, side, piece, pr.0);
            }
        }
        vstd::set_lib::lemma_set_disjoint_lens(s0, s1);
    }
}

/// The threats, as (from, to) pairs, that have a bucketed feature.
pub open spec fn bucket_pairs(bbs: Seq<u64>) -> Set<(u64, u64)> {
    Set::new(
        |pr: (u64, u64)|
            pr.0 < 64 && owned(bbs, pr.0) && bucket_square_pairs(
                bbs,
                color_on(bbs, pr.0),
                piece_on(bbs, pr.0),
                pr.0,
            ).contains(pr),
    )
}

/// The bucketed threat features are as many as the threats that have one.
pub proof fn lemma_bucket_count(bbs: Seq<u64>)
    requires
        boards_consistent(bbs),
    ensures
        bucket_pairs(bbs).finite(),
        bucket_threats(bbs).len() == bucket_pairs(bbs).len(),
{
    lemma_side_count(bbs, 0, 6);
    lemma_side_count(bbs, 1, 6);
    let s0 = side_pairs(bbs, 0, 6);
    let s1 = side_pairs(bbs, 1, 6);
    let s = bucket_pairs(bbs);
    assert forall|pr: (u64, u64)| #[trigger] s.contains(pr) == (s0.contains(pr) || s1.contains(pr)) by {
        if owned(bbs, pr.0) {
            lemma_owned_piece(bbs, pr.0);
        }
    }
    assert(s =~= s0 + s1);
    assert(s0.disjoint(s1));
    vstd::set_lib::lemma_set_disjoint_lens(s0, s1);
}

/// The coloured piece `target` has a feature slot among the targets of `piece`, before
/// mirrored threats are thinned out.
pub open spec fn target_mapped(piece: nat, target: nat) -> bool {
    if piece == 2 {
        offset_map(pawn_slots(), target, 3) != usize::MAX as nat
    } else if piece == 4 || piece == 5 {
        offset_map(slider_slots(), target, 5) != usize::MAX as nat
    } else if piece == 7 {
        offset_map(king_slots(), target, 4) != usize::MAX as nat
    } else {
        true
    }
}

/// A threat between two occupied squares that has a bucketed feature unless it is the second
/// of a mirrored pair.
pub open spec fn bucket_featured(bbs: Seq<u64>, pr: (u64, u64)) -> bool {
    let side = color_on(bbs, pr.0);
    let piece = piece_on(bbs, pr.0);
    &&& pr.0 < 64
    &&& pr.1 < 64
    &&& owned(bbs, pr.0)
    &&& bit_set(bucket_attacks(bbs, side, piece, pr.0) & (bbs[0] | bbs[1]), pr.1)
    &&& target_mapped(piece, code_on(bbs, pr.1))
}

/// A threat that the threatened piece returns and of which the bucketed inputs keep one: between
/// enemy pawns, or between two knights, bishops, rooks or queens.
pub open spec fn bucket_mirrored(bbs: Seq<u64>, pr: (u64, u64)) -> bool {
    let side = color_on(bbs, pr.0);
    let piece = piece_on(bbs, pr.0);
    &&& piece != 7
    &&& code_on(bbs, pr.1) % 6 == piece - 2
    &&& piece != 2 || bit_set(bbs[(1 - side) as int], pr.1)
}

proof fn lemma_bucket_shape(bbs: Seq<u64>, pr: (u64, u64))
    ensures
        bucket_pairs(bbs).contains(pr) == (bucket_featured(bbs, pr) && !(bucket_mirrored(bbs, pr)
            && pr.1 > pr.0)),
{
    if owned(bbs, pr.0) {
        lemma_owned_piece(bbs, pr.0);
    }
}

/// The colour of a target does not decide whether it has a slot.
proof fn lemma_offset_map_colour(a: Seq<usize>, k: nat, n: nat)
    requires
        n <= a.len() <= 6,
        forall|i: int| 0 <= i < a.len() ==> 2 <= #[trigger] a[i] <= 7,
        k < 12,
    ensures
        (offset_map(a, k, n) == usize::MAX as nat) == (offset_map(a, (k + 6) % 12, n) == usize::MAX as nat),
    decreases n,
{
    if n > 0 {
        let i = (n - 1) as nat;
        assert(2 <= a[i as int] <= 7);
        lemma_offset_map_colour(a, k, i);
    }
}

proof fn lemma_target_mapped_colour(piece: nat, k: nat)
    requires
        k < 12,
    ensures
        target_mapped(piece, k) == target_mapped(piece, (k + 6) % 12),
{
    assert(pawn_slots()[0] == 2 && pawn_slots()[1] == 3 && pawn_slots()[2] == 5);
    assert(slider_slots()[0] == 2 && slider_slots()[1] == 3 && slider_slots()[2] == 4
        && slider_slots()[3] == 5 && slider_slots()[4] == 7);
    assert(king_slots()[0] == 2 && king_slots()[1] == 3 && king_slots()[2] == 4 && king_slots()[3] == 5);
    assert forall|i: int| 0 <= i < pawn_slots().len() implies 2 <= #[trigger] pawn_slots()[i] <= 7 by {}
    assert forall|i: int| 0 <= i < slider_slots().len() implies 2 <= #[trigger] slider_slots()[i] <= 7 by {}
    assert forall|i: int| 0 <= i < king_slots().len() implies 2 <= #[trigger] king_slots()[i] <= 7 by {}
    lemma_offset_map_colour(pawn_slots(), k, 3);
    lemma_offset_map_colour(slider_slots(), k, 5);
    lemma_offset_map_colour(king_slots(), k, 4);
}

/// The coloured piece code of an occupied square: 6 per colour, then the piece type.
proof fn lemma_code_of(bbs: Seq<u64>, sq: u64)
    requires
        owned(bbs, sq),
    ensures
        code_on(bbs, sq) == 6 * color_on(bbs, sq) + piece_on(bbs, sq) - 2,
        code_on(bbs, sq) < 12,
{
    lemma_owner_valid(bbs, sq, 12);
}

/// A mirrored threat is answered by the threat back, between two different squares.
proof fn lemma_bucket_mirror_back(bbs: Seq<u64>, pr: (u64, u64))
    requires
        bbs.len() == 8,
        board_covered(bbs),
        boards_consistent(bbs),
        colors_exact(bbs),
        bucket_featured(bbs, pr),
        bucket_mirrored(bbs, pr),
    ensures
        bucket_featured(bbs, (pr.1, pr.0)),
        bucket_mirrored(bbs, (pr.1, pr.0)),
        pr.0 != pr.1,
{
    let f = pr.0;
    let t = pr.1;
    let occ = bbs[0] | bbs[1];
    let c = color_on(bbs, f);
    let q = piece_on(bbs, f);
    lemma_owned_piece(bbs, f);
    lemma_code_of(bbs, f);
    lemma_bit_ops(bbs[c as int], bbs[q as int], f);
    lemma_bit_ops(bbs[0], bbs[1], f);
    lemma_bit_ops(bbs[0], bbs[1], t);
    lemma_bit_ops(occ, bbs[2], t);
    lemma_bit_ops(bucket_attacks(bbs, c, q, f), occ, t);
    assert(bit_set(occ, f));
    assert(owned(bbs, t));
    lemma_owned_piece(bbs, t);
    lemma_code_of(bbs, t);
    let c2 = color_on(bbs, t);
    lemma_bit_ops(bbs[c2 as int], bbs[q as int], t);
    assert(piece_on(bbs, t) == q);
    lemma_bit_ops(bucket_attacks(bbs, c2, q, t), occ, f);
    if c2 != c {
        lemma_target_mapped_colour(q, code_on(bbs, t));
    }
    if q == 2 {
        assert(bit_set(bbs[(1 - c) as int], t));
        assert(c2 == 1 - c);
        lemma_board_of(|x: u64| pawn_capture(c as u64, f, x), t);
        lemma_board_of(|x: u64| pawn_capture(c2 as u64, t, x), f);
    } else {
        lemma_attacks_symmetric(f, t, occ);
        if q == 3 {
            lemma_board_of(|x: u64| knight_jump(f, x), t);
            lemma_board_of(|x: u64| knight_jump(t, x), f);
        } else if q == 4 {
            lemma_board_of(|x: u64| bishop_sees(f, x, occ), t);
            lemma_board_of(|x: u64| bishop_sees(t, x, occ), f);
        } else if q == 5 {
            lemma_board_of(|x: u64| rook_sees(f, x, occ), t);
            lemma_board_of(|x: u64| rook_sees(t, x, occ), f);
        } else {
            lemma_board_of(|x: u64| rook_sees(f, x, occ) || bishop_sees(f, x, occ), t);
            lemma_board_of(|x: u64| rook_sees(t, x, occ) || bishop_sees(t, x, occ), f);
        }
    }
}

/// Of two equal pieces threatening each other (enemy pawns, or two knights, bishops, rooks or
/// queens), the bucketed inputs give exactly one of the two threats a feature: the one towards
/// the lower square.
pub proof fn lemma_bucket_mirrored_pair_once(bbs: Seq<u64>, pr: (u64, u64))
    requires
        bbs.len() == 8,
        board_covered(bbs),
        boards_consistent(bbs),
        colors_exact(bbs),
        bucket_featured(bbs, pr),
        bucket_mirrored(bbs, pr),
    ensures
        bucket_pairs(bbs).contains(pr) == (pr.1 < pr.0),
        bucket_pairs(bbs).contains((pr.1, pr.0)) == (pr.0 < pr.1),
{
    lemma_bucket_mirror_back(bbs, pr);
    lemma_bucket_shape(bbs, pr);
    lemma_bucket_shape(bbs, (pr.1, pr.0));
}

/// A pawn's threat against a bishop or a queen has no bucketed feature, and the bishop's or
/// queen's threat back against the pawn has one.
pub proof fn lemma_bucket_pawn_threat_covered(bbs: Seq<u64>, f: u64, t: u64)
    requires
        boards_sound(bbs),
        f < 64,
        t < 64,
        owned(bbs, f),
        piece_on(bbs, f) == 2,
        bit_set(bucket_attacks(bbs, color_on(bbs, f), 2, f) & (bbs[0] | bbs[1]), t),
        piece_on(bbs, t) == 4 || piece_on(bbs, t) == 6,
    ensures
        !bucket_pairs(bbs).contains((f, t)),
        bucket_pairs(bbs).contains((t, f)),
{
    reveal_with_fuel(offset_map, 6);
    let occ = bbs[0] | bbs[1];
    let c = color_on(bbs, f);
    lemma_bucket_shape(bbs, (f, t));
    lemma_bucket_shape(bbs, (t, f));
    lemma_owned_piece(bbs, f);
    lemma_code_of(bbs, f);
    lemma_bit_ops(bbs[c as int], bbs[2], f);
    lemma_bit_ops(bbs[0], bbs[1], f);
    lemma_bit_ops(bbs[0], bbs[1], t);
    lemma_bit_ops(occ, bbs[2], t);
    lemma_bit_ops(pawn_captures(c as u64, f), occ, t);
    assert(owned(bbs, t));
    lemma_owned_piece(bbs, t);
    lemma_code_of(bbs, t);
    let qt = piece_on(bbs, t);
    lemma_board_of(|x: u64| pawn_capture(c as u64, f, x), t);
    lemma_pawn_capture_diagonal(c as u64, f, t, occ);
    lemma_bit_ops(piece_attack_set(qt, t, occ), occ, f);
    if qt == 4 {
        lemma_board_of(|x: u64| bishop_sees(t, x, occ), f);
    } else {
        lemma_board_of(|x: u64| rook_sees(t, x, occ) || bishop_sees(t, x, occ), f);
    }
    assert(pawn_slots()[0] == 2 && pawn_slots()[1] == 3 && pawn_slots()[2] == 5);
    assert(slider_slots()[0] == 2);
    assert(!target_mapped(2, code_on(bbs, t)));
    assert(target_mapped(qt, code_on(bbs, f)));
}

/// A bishop's or a rook's threat against a queen has no bucketed feature, and the queen's
/// threat back has one.
pub proof fn lemma_bucket_queen_threat_covered(bbs: Seq<u64>, f: u64, t: u64)
    requires
        boards_sound(bbs),
        f < 64,
        t < 64,
        owned(bbs, f),
        piece_on(bbs, f) == 4 || piece_on(bbs, f) == 5,
        bit_set(bucket_attacks(bbs, color_on(bbs, f), piece_on(bbs, f), f) & (bbs[0] | bbs[1]), t),
        piece_on(bbs, t) == 6,
    ensures
        !bucket_pairs(bbs).contains((f, t)),
        bucket_pairs(bbs).contains((t, f)),
{
    reveal_with_fuel(offset_map, 6);
    let occ = bbs[0] | bbs[1];
    let c = color_on(bbs, f);
    let q = piece_on(bbs, f);
    lemma_bucket_shape(bbs, (f, t));
    lemma_bucket_shape(bbs, (t, f));
    lemma_owned_piece(bbs, f);
    lemma_code_of(bbs, f);
    lemma_bit_ops(bbs[c as int], bbs[q as int], f);
    lemma_bit_ops(bbs[0], bbs[1], f);
    lemma_bit_ops(bbs[0], bbs[1], t);
    lemma_bit_ops(occ, bbs[2], t);
    lemma_bit_ops(piece_attack_set(q, f, occ), occ, t);
    assert(owned(bbs, t));
    lemma_owned_piece(bbs, t);
    lemma_code_of(bbs, t);
    lemma_attacks_symmetric(f, t, occ);
    lemma_bit_ops(piece_attack_set(6, t, occ), occ, f);
    lemma_board_of(|x: u64| rook_sees(t, x, occ) || bishop_sees(t, x, occ), f);
    if q == 4 {
        lemma_board_of(|x: u64| bishop_sees(f, x, occ), t);
    } else {
        lemma_board_of(|x: u64| rook_sees(f, x, occ), t);
    }
    assert(slider_slots()[0] == 2 && slider_slots()[1] == 3 && slider_slots()[2] == 4
        && slider_slots()[3] == 5 && slider_slots()[4] == 7);
    assert(!target_mapped(q, code_on(bbs, t)));
}

/// The threats that are not mirrored, and those that are.
spec fn plain_threats(bbs: Seq<u64>) -> Set<(u64, u64)> {
    Set::new(|pr: (u64, u64)| bucket_featured(bbs, pr) && !bucket_mirrored(bbs, pr))
}

spec fn mirrored_threats(bbs: Seq<u64>) -> Set<(u64, u64)> {
    Set::new(|pr: (u64, u64)| bucket_featured(bbs, pr) && bucket_mirrored(bbs, pr))
}

spec fn mirrored_kept(bbs: Seq<u64>, up: bool) -> Set<(u64, u64)> {
    Set::new(|pr: (u64, u64)| bucket_featured(bbs, pr) && bucket_mirrored(bbs, pr) && (pr.1 > pr.0) == up)
}

/// The bucketed inputs count the plain threats and half of the mirrored ones.
proof fn lemma_bucket_pairs_count(bbs: Seq<u64>)
    requires
        bbs.len() == 8,
        board_covered(bbs),
        boards_consistent(bbs),
        colors_exact(bbs),
    ensures
        plain_threats(bbs).finite(),
        mirrored_threats(bbs).finite(),
        2 * bucket_threats(bbs).len() == 2 * plain_threats(bbs).len() + mirrored_threats(bbs).len(),
{
    let k = bucket_pairs(bbs);
    let a = plain_threats(bbs);
    let m = mirrored_threats(bbs);
    let hi = mirrored_kept(bbs, false);
    let lo = mirrored_kept(bbs, true);
    lemma_bucket_count(bbs);
    assert forall|pr: (u64, u64)| #[trigger] k.contains(pr) == (a.contains(pr) || hi.contains(pr)) by {
        lemma_bucket_shape(bbs, pr);
    }
    assert(k =~= a + hi);
    assert(a.subset_of(k));
    assert(hi.subset_of(k));
    vstd::set_lib::lemma_set_subset_finite(k, a);
    vstd::set_lib::lemma_set_subset_finite(k, hi);
    assert(a.disjoint(hi));
    vstd::set_lib::lemma_set_disjoint_lens(a, hi);
    let swap = |pr: (u64, u64)| (pr.1, pr.0);
    assert forall|pr: (u64, u64)| #[trigger] hi.map(swap).contains(pr) == lo.contains(pr) by {
        if lo.contains(pr) {
            lemma_bucket_mirror_back(bbs, pr);
            assert(hi.contains(swap(pr)));
            assert(swap(swap(pr)) == pr);
        }
        if hi.map(swap).contains(pr) {
            let x = choose|x: (u64, u64)| hi.contains(x) && pr == swap(x);
            lemma_bucket_mirror_back(bbs, x);
        }
    }
    assert(hi.map(swap) =~= lo);
    vstd::set_lib::lemma_map_size(hi, lo, swap);
    assert(m =~= lo + hi);
    assert(lo.disjoint(hi));
    vstd::set_lib::lemma_set_disjoint_lens(lo, hi);
}

/// The board index that a colour-swapping mirror reads for index `i`.
pub open spec fn mirror_index(i: int, swap: bool) -> int {
    if swap && i < 2 {
        1 - i
    } else {
        i
    }
}

pub open spec fn mirror_color(c: nat, swap: bool) -> nat {
    if swap {
        (1 - c) as nat
    } else {
        c
    }
}

/// `bbs2` is `bbs` with each square `sq` moved to `sq ^ o`, and with the colours exchanged
/// when `swap`.
pub open spec fn boards_mirrored(bbs: Seq<u64>, bbs2: Seq<u64>, o: u64, swap: bool) -> bool {
    &&& bbs.len() == 8
    &&& bbs2.len() == 8
    &&& forall|i: int, t: u64|
        0 <= i < 8 && t < 64 ==> #[trigger] bit_set(bbs2[i], t) == bit_set(bbs[mirror_index(i, swap)], t ^ o)
}

/// Boards on which every occupied square holds exactly one piece of one colour.
pub open spec fn boards_sound(bbs: Seq<u64>) -> bool {
    &&& bbs.len() == 8
    &&& board_covered(bbs)
    &&& boards_consistent(bbs)
    &&& colors_exact(bbs)
}

pub proof fn lemma_mirrored_bit(bbs: Seq<u64>, bbs2: Seq<u64>, o: u64, swap: bool, i: int, x: u64)
    requires
        boards_mirrored(bbs, bbs2, o, swap),
        o == 0 || o == 7 || o == 56 || o == 63,
        0 <= i < 8,
        x < 64,
    ensures
        x ^ o < 64,
        bit_set(bbs2[i], x ^ o) == bit_set(bbs[mirror_index(i, swap)], x),
{
    lemma_mirror_coords(x, o);
}

proof fn lemma_mirrored_pair(bbs: Seq<u64>, bbs2: Seq<u64>, o: u64, swap: bool, s: int, q: int, x: u64)
    requires
        boards_mirrored(bbs, bbs2, o, swap),
        o == 0 || o == 7 || o == 56 || o == 63,
        0 <= s < 2,
        2 <= q < 8,
        x < 64,
    ensures
        bit_set(bbs2[s] & bbs2[q], x ^ o) == bit_set(bbs[mirror_index(s, swap)] & bbs[q], x),
{
    lemma_mirrored_bit(bbs, bbs2, o, swap, s, x);
    lemma_mirrored_bit(bbs, bbs2, o, swap, q, x);
    lemma_mirror_coords(x, o);
    lemma_bit_ops(bbs2[s], bbs2[q], x ^ o);
    lemma_bit_ops(bbs[mirror_index(s, swap)], bbs[q], x);
}

/// Mirrored boards are sound when the original is, with each piece moved to the mirrored
/// square and its colour exchanged when `swap`.
pub proof fn lemma_mirrored_sound(bbs: Seq<u64>, bbs2: Seq<u64>, o: u64, swap: bool)
    requires
        boards_sound(bbs),
        boards_mirrored(bbs, bbs2, o, swap),
        o == 0 || o == 7 || o == 56 || o == 63,
    ensures
        boards_sound(bbs2),
        forall|x: u64| x < 64 ==> #[trigger] owned(bbs2, x ^ o) == owned(bbs, x),
        forall|x: u64|
            x < 64 && owned(bbs, x) ==> #[trigger] color_on(bbs2, x ^ o) == mirror_color(color_on(bbs, x), swap),
        forall|x: u64| x < 64 && owned(bbs, x) ==> #[trigger] piece_on(bbs2, x ^ o) == piece_on(bbs, x),
{
    assert forall|sq: u64, j1: nat, j2: nat|
        sq < 64 && j1 < 12 && j2 < 12 && #[trigger] bit_set(bbs2[pair_side(j1) as int] & bbs2[pair_piece(j1) as int], sq)
            && #[trigger] bit_set(bbs2[pair_side(j2) as int] & bbs2[pair_piece(j2) as int], sq) implies j1 == j2 by {
        lemma_mirror_coords(sq, o);
        let x = sq ^ o;
        lemma_mirrored_pair(bbs, bbs2, o, swap, pair_side(j1) as int, pair_piece(j1) as int, x);
        lemma_mirrored_pair(bbs, bbs2, o, swap, pair_side(j2) as int, pair_piece(j2) as int, x);
        let k1: nat = (6 * mirror_index(pair_side(j1) as int, swap) + pair_piece(j1) - 2) as nat;
        let k2: nat = (6 * mirror_index(pair_side(j2) as int, swap) + pair_piece(j2) - 2) as nat;
        assert(pair_side(k1) == mirror_index(pair_side(j1) as int, swap) && pair_piece(k1) == pair_piece(j1));
        assert(pair_side(k2) == mirror_index(pair_side(j2) as int, swap) && pair_piece(k2) == pair_piece(j2));
        assert(bit_set(bbs[pair_side(k1) as int] & bbs[pair_piece(k1) as int], x));
        assert(bit_set(bbs[pair_side(k2) as int] & bbs[pair_piece(k2) as int], x));
    }
    assert(boards_consistent(bbs2));
    assert forall|x: u64| x < 64 implies #[trigger] owned(bbs2, x ^ o) == owned(bbs, x) && (owned(bbs, x) ==> color_on(bbs2, x ^ o)
        == mirror_color(color_on(bbs, x), swap) && piece_on(bbs2, x ^ o) == piece_on(bbs, x)) by {
        lemma_mirror_coords(x, o);
        if owned(bbs, x) {
            lemma_owned_piece(bbs, x);
            let c = color_on(bbs, x);
            let q = piece_on(bbs, x);
            lemma_mirrored_pair(bbs, bbs2, o, swap, mirror_color(c, swap) as int, q as int, x);
            lemma_owner_of(bbs2, mirror_color(c, swap), q, x ^ o);
        }
        if owned(bbs2, x ^ o) {
            lemma_owned_piece(bbs2, x ^ o);
            let c2 = color_on(bbs2, x ^ o);
            let q2 = piece_on(bbs2, x ^ o);
            lemma_mirrored_pair(bbs, bbs2, o, swap, c2 as int, q2 as int, x);
            lemma_owner_of(bbs, mirror_color(c2, swap), q2, x);
        }
    }
    assert forall|x: u64| x < 64 && owned(bbs, x) implies #[trigger] color_on(bbs2, x ^ o) == mirror_color(color_on(bbs, x), swap) by {
        assert(owned(bbs2, x ^ o) == owned(bbs, x));
    }
    assert forall|x: u64| x < 64 && owned(bbs, x) implies #[trigger] piece_on(bbs2, x ^ o) == piece_on(bbs, x) by {
        assert(owned(bbs2, x ^ o) == owned(bbs, x));
    }
    assert forall|y: u64| y < 64 && bit_set(bbs2[0] | bbs2[1] | bbs2[2], y) implies #[trigger] last_owner(bbs2, y, 12) is Some by {
        lemma_mirror_coords(y, o);
        let x = y ^ o;
        lemma_mirrored_bit(bbs, bbs2, o, swap, 0, x);
        lemma_mirrored_bit(bbs, bbs2, o, swap, 1, x);
        lemma_mirrored_bit(bbs, bbs2, o, swap, 2, x);
        lemma_bit_ops(bbs2[0], bbs2[1], y);
        lemma_bit_ops(bbs2[0] | bbs2[1], bbs2[2], y);
        lemma_bit_ops(bbs[0], bbs[1], x);
        lemma_bit_ops(bbs[0] | bbs[1], bbs[2], x);
        assert(owned(bbs, x));
        assert(owned(bbs2, x ^ o));
    }
    assert forall|y: u64, sd: nat| y < 64 && sd < 2 && #[trigger] bit_set(bbs2[sd as int], y) implies owned(bbs2, y)
        && color_on(bbs2, y) == sd by {
        lemma_mirror_coords(y, o);
        let x = y ^ o;
        lemma_mirrored_bit(bbs, bbs2, o, swap, sd as int, x);
        assert(bit_set(bbs[mirror_color(sd, swap) as int], x));
        assert(owned(bbs, x) && color_on(bbs, x) == mirror_color(sd, swap));
        assert(owned(bbs2, x ^ o));
    }
}

/// A mirror keeps which threats have a bucketed feature and which are mirrored pairs.
proof fn lemma_mirrored_threat(bbs: Seq<u64>, bbs2: Seq<u64>, o: u64, swap: bool, pr: (u64, u64))
    requires
        boards_sound(bbs),
        boards_mirrored(bbs, bbs2, o, swap),
        (o == 7 && !swap) || (o == 56 && swap),
        pr.0 < 64,
        pr.1 < 64,
    ensures
        bucket_featured(bbs2, (pr.0 ^ o, pr.1 ^ o)) == bucket_featured(bbs, pr),
        bucket_featured(bbs, pr) ==> bucket_mirrored(bbs2, (pr.0 ^ o, pr.1 ^ o)) == bucket_mirrored(bbs, pr),
{
    lemma_mirrored_sound(bbs, bbs2, o, swap);
    let f = pr.0;
    let t = pr.1;
    let f2 = f ^ o;
    let t2 = t ^ o;
    lemma_mirror_coords(f, o);
    lemma_mirror_coords(t, o);
    let occ = bbs[0] | bbs[1];
    let occ2 = bbs2[0] | bbs2[1];
    assert forall|u: u64| u < 64 implies #[trigger] bit_set(occ2, u ^ o) == bit_set(occ, u) by {
        lemma_mirrored_bit(bbs, bbs2, o, swap, 0, u);
        lemma_mirrored_bit(bbs, bbs2, o, swap, 1, u);
        lemma_bit_ops(bbs2[0], bbs2[1], u ^ o);
        lemma_bit_ops(bbs[0], bbs[1], u);
    }
    assert(owned(bbs2, f2) == owned(bbs, f));
    if owned(bbs, f) {
        lemma_owned_piece(bbs, f);
        let c = color_on(bbs, f);
        let q = piece_on(bbs, f);
        let c2 = mirror_color(c, swap);
        assert(color_on(bbs2, f2) == c2 && piece_on(bbs2, f2) == q);
        lemma_bit_ops(bucket_attacks(bbs2, c2, q, f2), occ2, t2);
        lemma_bit_ops(bucket_attacks(bbs, c, q, f), occ, t);
        lemma_steps_mirrored(c as u64, f, t, o);
        lemma_slides_mirrored(f, t, occ, occ2, o);
        if q == 2 {
            lemma_board_of(|x: u64| pawn_capture(c as u64, f, x), t);
            lemma_board_of(|x: u64| pawn_capture(c2 as u64, f2, x), t2);
        } else if q == 3 {
            lemma_board_of(|x: u64| knight_jump(f, x), t);
            lemma_board_of(|x: u64| knight_jump(f2, x), t2);
        } else if q == 4 {
            lemma_board_of(|x: u64| bishop_sees(f, x, occ), t);
            lemma_board_of(|x: u64| bishop_sees(f2, x, occ2), t2);
        } else if q == 5 {
            lemma_board_of(|x: u64| rook_sees(f, x, occ), t);
            lemma_board_of(|x: u64| rook_sees(f2, x, occ2), t2);
        } else if q == 6 {
            lemma_board_of(|x: u64| rook_sees(f, x, occ) || bishop_sees(f, x, occ), t);
            lemma_board_of(|x: u64| rook_sees(f2, x, occ2) || bishop_sees(f2, x, occ2), t2);
        } else {
            lemma_board_of(|x: u64| king_step(f, x), t);
            lemma_board_of(|x: u64| king_step(f2, x), t2);
        }
        assert(bit_set(bucket_attacks(bbs2, c2, q, f2), t2) == bit_set(bucket_attacks(bbs, c, q, f), t));
        if bit_set(occ, t) {
            lemma_bit_ops(occ, bbs[2], t);
            assert(owned(bbs, t));
            assert(owned(bbs2, t2));
            lemma_owned_piece(bbs, t);
            lemma_code_of(bbs, t);
            lemma_code_of(bbs2, t2);
            if swap {
                lemma_target_mapped_colour(q, code_on(bbs, t));
                assert(code_on(bbs2, t2) == (code_on(bbs, t) + 6) % 12);
            }
            lemma_mirrored_bit(bbs, bbs2, o, swap, (1 - c2) as int, t);
        }
    }
}

/// Mirroring the board, or turning it round with the colours swapped, keeps the number of
/// bucketed threat features.
pub proof fn lemma_bucket_threats_mirrored(bbs: Seq<u64>, bbs2: Seq<u64>, o: u64, swap: bool)
    requires
        boards_sound(bbs),
        boards_mirrored(bbs, bbs2, o, swap),
        (o == 7 && !swap) || (o == 56 && swap),
    ensures
        boards_sound(bbs2),
        bucket_threats(bbs2).len() == bucket_threats(bbs).len(),
{
    lemma_mirrored_sound(bbs, bbs2, o, swap);
    lemma_bucket_pairs_count(bbs);
    lemma_bucket_pairs_count(bbs2);
    let sigma = |pr: (u64, u64)| (pr.0 ^ o, pr.1 ^ o);
    let a = plain_threats(bbs);
    let a2 = plain_threats(bbs2);
    let m = mirrored_threats(bbs);
    let m2 = mirrored_threats(bbs2);
    assert forall|pr: (u64, u64)| #[trigger] a.map(sigma).contains(pr) == a2.contains(pr) by {
        if a2.contains(pr) {
            lemma_mirror_coords(pr.0, o);
            lemma_mirror_coords(pr.1, o);
            let x = sigma(pr);
            lemma_mirrored_threat(bbs, bbs2, o, swap, x);
            assert(sigma(x) == pr);
            assert(a.contains(x));
        }
        if a.map(sigma).contains(pr) {
            let x = choose|x: (u64, u64)| a.contains(x) && pr == sigma(x);
            lemma_mirrored_threat(bbs, bbs2, o, swap, x);
        }
    }
    assert forall|pr: (u64, u64)| #[trigger] m.map(sigma).contains(pr) == m2.contains(pr) by {
        if m2.contains(pr) {
            lemma_mirror_coords(pr.0, o);
            lemma_mirror_coords(pr.1, o);
            let x = sigma(pr);
            lemma_mirrored_threat(bbs, bbs2, o, swap, x);
            assert(sigma(x) == pr);
            assert(m.contains(x));
        }
        if m.map(sigma).contains(pr) {
            let x = choose|x: (u64, u64)| m.contains(x) && pr == sigma(x);
            lemma_mirrored_threat(bbs, bbs2, o, swap, x);
        }
    }
    assert forall|x1: (u64, u64), x2: (u64, u64)|
        (a.contains(x1) || m.contains(x1)) && (a.contains(x2) || m.contains(x2)) && #[trigger] sigma(x1) == #[trigger] sigma(x2)
        implies x1 == x2 by {
        lemma_mirror_coords(x1.0, o);
        lemma_mirror_coords(x1.1, o);
        lemma_mirror_coords(x2.0, o);
        lemma_mirror_coords(x2.1, o);
    }
    assert(a.map(sigma) =~= a2);
    assert(m.map(sigma) =~= m2);
    vstd::set_lib::lemma_map_size(a, a2, sigma);
    vstd::set_lib::lemma_map_size(m, m2, sigma);
}

/// Mirroring the files, as the bucketed inputs do for a king on the a-to-d files, keeps the
/// number of threat features.
pub proof fn lemma_oriented_count(bbs: Seq<u64>)
    requires
        boards_sound(bbs),
    ensures
        boards_sound(oriented_boards(bbs)),
        bucket_threats(oriented_boards(bbs)).len() == bucket_threats(bbs).len(),
{
    let ob = oriented_boards(bbs);
    if ob != bbs {
        assert forall|i: int, t: u64| 0 <= i < 8 && t < 64 implies #[trigger] bit_set(ob[i], t) == bit_set(
            bbs[mirror_index(i, false)],
            t ^ 7u64,
        ) by {
            lemma_board_of(|x: u64| bit_set(bbs[i], x ^ 7u64), t);
        }
        lemma_bucket_threats_mirrored(bbs, ob, 7, false);
    }
}

/// Turning the board round with the colours swapped keeps the number of bucketed threat
/// features.
pub proof fn lemma_swapped_count(bbs: Seq<u64>)
    requires
        boards_sound(bbs),
    ensures
        boards_sound(swapped_boards(bbs)),
        bucket_threats(swapped_boards(bbs)).len() == bucket_threats(bbs).len(),
{
    let sb = swapped_boards(bbs);
    assert forall|i: int, t: u64| 0 <= i < 8 && t < 64 implies #[trigger] bit_set(sb[i], t) == bit_set(
        bbs[mirror_index(i, true)],
        t ^ 56u64,
    ) by {
        lemma_byte_swapped_bits(bbs[mirror_index(i, true)], t);
    }
    lemma_bucket_threats_mirrored(bbs, sb, 56, true);
}

/// Both sides of a readable position see equally many bucketed threats.
pub proof fn lemma_position_bucket_counts_agree(pos: PackedBoard)
    requires
        board_well_formed(pos),
    ensures
        bucket_threats(oriented_boards(position_boards(pos))).len() == bucket_threats(
            oriented_boards(swapped_boards(position_boards(pos))),
        ).len(),
{
    let bbs = position_boards(pos);
    lemma_position_boards_consistent(pos);
    assert(boards_sound(bbs));
    lemma_oriented_count(bbs);
    lemma_swapped_count(bbs);
    lemma_oriented_count(swapped_boards(bbs));
}


/// A threat's square offset within its piece's block lies below the block's size.
proof fn lemma_square_in_block(pt: nat, s: u64, d: u64)
    requires
        1 <= pt < 6,
        s < 64,
        d < 64,
        bit_set(pseudo_attack_set(pt, s), d),
    ensures
        attack_index(pt, s as nat) + count_below(pseudo_attack_set(pt, s), d as nat) < attack_index(pt, 64),
{
    lemma_count_below_lt_total(pseudo_attack_set(pt, s), d);
    assert(target_set(pt, 0, s) == pseudo_attack_set(pt, s));
    assert(square_offset(pt, 0, (s + 1) as nat) == square_offset(pt, 0, s as nat) + square_count(pt, 0, s));
    lemma_square_offset_mono(pt, 0, (s + 1) as nat, 64);
}

proof fn lemma_block_split(m1: nat, w1: nat, m2: nat, w2: nat, a: nat)
    by (nonlinear_arith)
    requires
        w1 < a,
        w2 < a,
        m1 * a + w1 == m2 * a + w2,
    ensures
        m1 == m2,
        w1 == w2,
{
}

proof fn lemma_pawn_split(m1: int, r1: int, q1: int, m2: int, r2: int, q2: int)
    by (nonlinear_arith)
    requires
        0 <= r1 < 6,
        0 <= r2 < 6,
        0 <= q1 < 14,
        0 <= q2 < 14,
        m1 * 84 + r1 * 14 + q1 == m2 * 84 + r2 * 14 + q2,
    ensures
        m1 == m2,
        r1 == r2,
        q1 == q2,
{
}

/// A pawn capture: the capture side is 0 towards the a-file and 1 towards the h-file, for
/// pawns of either colour; the index of the capture among the pawn's two lies in `0..14`, and
/// with the pawn's rank it names the pawn's square and the captured square.
pub proof fn lemma_pawn_capture_slot(side: u64, s: u64, d: u64)
    requires
        side < 2,
        8 <= s < 56,
        d < 64,
        pawn_capture(side, s, d),
    ensures
        0 <= 2 * (s % 8) + pawn_capture_side(s as nat, d as nat) - 1 < 14,
        pawn_capture_side(s as nat, d as nat) < 2,
        d % 8 == if pawn_capture_side(s as nat, d as nat) == 0 { s % 8 - 1 } else { s % 8 + 1 },
        d / 8 == if side == 0 { s / 8 + 1 } else { s / 8 - 1 },
{
    assert(s == 8 * (s / 8) + s % 8);
    assert(d == 8 * (d / 8) + d % 8);
}

/// The pieces' ranges follow each other: pawns first, kings last.
proof fn lemma_range_order(p: nat, q: nat)
    requires
        2 <= p < q <= 7,
    ensures
        range_end(p) <= range_end((q - 1) as nat),
{
}

/// The first feature of a piece's range.
spec fn range_start(piece: nat) -> nat {
    if piece == 2 { 0 } else { range_end((piece - 1) as nat) }
}

/// A threat's bucketed feature lies in its piece's range.
proof fn lemma_threat_in_range(p: nat, s: u64, d: u64, k: nat, e: bool)
    requires
        2 <= p <= 7,
        piece_threat_ok(p, s as nat, d as nat, k, e),
        piece_threat(p, s as nat, d as nat, k, e) is Some,
    ensures
        range_start(p) <= piece_threat(p, s as nat, d as nat, k, e)->0 < range_end(p),
{
}

proof fn lemma_pawn_threat_injective(side: nat, s1: u64, d1: u64, k1: nat, e1: bool, s2: u64, d2: u64, k2: nat, e2: bool)
    requires
        side < 2,
        d1 < 64,
        d2 < 64,
        8 <= s1 < 56 && pawn_capture(side as u64, s1, d1),
        8 <= s2 < 56 && pawn_capture(side as u64, s2, d2),
        piece_threat(2, s1 as nat, d1 as nat, k1, e1) is Some,
        piece_threat(2, s2 as nat, d2 as nat, k2, e2) is Some,
        piece_threat(2, s1 as nat, d1 as nat, k1, e1)->0 == piece_threat(2, s2 as nat, d2 as nat, k2, e2)->0,
    ensures
        s1 == s2,
        d1 == d2,
{
    let m1 = offset_map(pawn_slots(), k1, 3);
    let m2 = offset_map(pawn_slots(), k2, 3);
    lemma_offset_map_bound(pawn_slots(), k1, 3);
    lemma_offset_map_bound(pawn_slots(), k2, 3);
    lemma_pawn_capture_slot(side as u64, s1, d1);
    lemma_pawn_capture_slot(side as u64, s2, d2);
    let q1 = 2 * (s1 % 8) + pawn_capture_side(s1 as nat, d1 as nat) - 1;
    let q2 = 2 * (s2 % 8) + pawn_capture_side(s2 as nat, d2 as nat) - 1;
    assert(piece_threat(2, s1 as nat, d1 as nat, k1, e1)->0 == m1 * 84 + (s1 / 8 - 1) * 14 + q1);
    assert(piece_threat(2, s2 as nat, d2 as nat, k2, e2)->0 == m2 * 84 + (s2 / 8 - 1) * 14 + q2);
    lemma_pawn_split(m1 as int, (s1 / 8 - 1) as int, q1, m2 as int, (s2 / 8 - 1) as int, q2);
    assert(s1 == 8 * (s1 / 8) + s1 % 8);
    assert(s2 == 8 * (s2 / 8) + s2 % 8);
    assert(d1 == 8 * (d1 / 8) + d1 % 8);
    assert(d2 == 8 * (d2 / 8) + d2 % 8);
}

proof fn lemma_block_threat_injective(p: nat, s1: u64, d1: u64, k1: nat, e1: bool, s2: u64, d2: u64, k2: nat, e2: bool)
    requires
        3 <= p <= 7,
        s1 < 64,
        s2 < 64,
        d1 < 64,
        d2 < 64,
        bit_set(pseudo_attack_set((p - 2) as nat, s1), d1),
        bit_set(pseudo_attack_set((p - 2) as nat, s2), d2),
        piece_threat(p, s1 as nat, d1 as nat, k1, e1) is Some,
        piece_threat(p, s2 as nat, d2 as nat, k2, e2) is Some,
        piece_threat(p, s1 as nat, d1 as nat, k1, e1)->0 == piece_threat(p, s2 as nat, d2 as nat, k2, e2)->0,
    ensures
        s1 == s2,
        d1 == d2,
{
    let pt = (p - 2) as nat;
    let a = attack_index(pt, 64);
    let w1 = attack_index(pt, s1 as nat) + count_below(pseudo_attack_set(pt, s1), d1 as nat);
    let w2 = attack_index(pt, s2 as nat) + count_below(pseudo_attack_set(pt, s2), d2 as nat);
    lemma_square_in_block(pt, s1, d1);
    lemma_square_in_block(pt, s2, d2);
    let m1: nat = if p == 3 || p == 6 {
        k1
    } else if p == 7 {
        offset_map(king_slots(), k1, 4)
    } else {
        offset_map(slider_slots(), k1, 5)
    };
    let m2: nat = if p == 3 || p == 6 {
        k2
    } else if p == 7 {
        offset_map(king_slots(), k2, 4)
    } else {
        offset_map(slider_slots(), k2, 5)
    };
    assert(piece_threat(p, s1 as nat, d1 as nat, k1, e1)->0 == range_start(p) + m1 * a + w1);
    assert(piece_threat(p, s2 as nat, d2 as nat, k2, e2)->0 == range_start(p) + m2 * a + w2);
    lemma_block_split(m1, w1, m2, w2, a);
    assert(target_set(pt, 0, s1) == pseudo_attack_set(pt, s1));
    assert(target_set(pt, 0, s2) == pseudo_attack_set(pt, s2));
    lemma_square_target_unique(pt, 0, s1, d1, s2, d2);
}

/// Two threats of one side that each get a bucketed feature within their piece's range share
/// it only when they are the same threat: the attacking square and the attacked square agree.
pub proof fn lemma_piece_threat_injective(
    side: nat,
    p1: nat,
    s1: u64,
    d1: u64,
    k1: nat,
    e1: bool,
    p2: nat,
    s2: u64,
    d2: u64,
    k2: nat,
    e2: bool,
)
    requires
        side < 2,
        2 <= p1 <= 7,
        2 <= p2 <= 7,
        s1 < 64,
        s2 < 64,
        d1 < 64,
        d2 < 64,
        p1 == 2 ==> 8 <= s1 < 56 && pawn_capture(side as u64, s1, d1),
        p2 == 2 ==> 8 <= s2 < 56 && pawn_capture(side as u64, s2, d2),
        p1 != 2 ==> bit_set(pseudo_attack_set((p1 - 2) as nat, s1), d1),
        p2 != 2 ==> bit_set(pseudo_attack_set((p2 - 2) as nat, s2), d2),
        piece_threat_ok(p1, s1 as nat, d1 as nat, k1, e1),
        piece_threat_ok(p2, s2 as nat, d2 as nat, k2, e2),
        piece_threat(p1, s1 as nat, d1 as nat, k1, e1) is Some,
        piece_threat(p2, s2 as nat, d2 as nat, k2, e2) is Some,
        piece_threat(p1, s1 as nat, d1 as nat, k1, e1)->0 == piece_threat(p2, s2 as nat, d2 as nat, k2, e2)->0,
    ensures
        p1 == p2,
        s1 == s2,
        d1 == d2,
{
    lemma_threat_in_range(p1, s1, d1, k1, e1);
    lemma_threat_in_range(p2, s2, d2, k2, e2);
    if p1 < p2 {
        lemma_range_order(p1, p2);
    } else if p2 < p1 {
        lemma_range_order(p2, p1);
    } else if p1 == 2 {
        lemma_pawn_threat_injective(side, s1, d1, k1, e1, s2, d2, k2, e2);
    } else {
        lemma_block_threat_injective(p1, s1, d1, k1, e1, s2, d2, k2, e2);
    }
}


/// The bucketed feature of the threat `pr`, in the half of the attacking piece's colour.
pub open spec fn bucket_pair_feature(bbs: Seq<u64>, pr: (u64, u64)) -> usize {
    let side = color_on(bbs, pr.0);
    (offset_end() * side + piece_threat(
        piece_on(bbs, pr.0),
        pr.0 as nat,
        pr.1 as nat,
        code_on(bbs, pr.1),
        bit_set(bbs[(1 - side) as int], pr.1),
    )->0) as usize
}

/// No two threats of `ps` share a bucketed feature.
pub open spec fn bucket_features_distinct(bbs: Seq<u64>, ps: Set<(u64, u64)>) -> bool {
    forall|pr1: (u64, u64), pr2: (u64, u64)|
        ps.contains(pr1) && ps.contains(pr2) && #[trigger] bucket_pair_feature(bbs, pr1) == #[trigger] bucket_pair_feature(
            bbs,
            pr2,
        ) ==> pr1 == pr2
}

/// `x` is the bucketed feature of a threat of `ps`.
pub open spec fn bucket_feature_in(bbs: Seq<u64>, x: usize, ps: Set<(u64, u64)>) -> bool {
    exists|pr: (u64, u64)| #[trigger] ps.contains(pr) && x == bucket_pair_feature(bbs, pr)
}

/// Every entry of `xs` is the bucketed feature of a threat of `ps`.
pub open spec fn bucket_features_from(bbs: Seq<u64>, xs: Seq<usize>, ps: Set<(u64, u64)>) -> bool {
    forall|i: int| 0 <= i < xs.len() ==> #[trigger] bucket_feature_in(bbs, xs[i], ps)
}

proof fn lemma_bucket_concat(bbs: Seq<u64>, xs: Seq<usize>, ys: Seq<usize>, px: Set<(u64, u64)>, py: Set<(u64, u64)>)
    requires
        bucket_features_from(bbs, xs, px),
        bucket_features_from(bbs, ys, py),
        xs.no_duplicates(),
        ys.no_duplicates(),
        px.disjoint(py),
        bucket_features_distinct(bbs, px + py),
    ensures
        bucket_features_from(bbs, xs + ys, px + py),
        (xs + ys).no_duplicates(),
{
    assert forall|i: int, j: int| 0 <= i < xs.len() && 0 <= j < ys.len() implies xs[i] != ys[j] by {
        assert(bucket_feature_in(bbs, xs[i], px));
        let a = choose|pr: (u64, u64)| #[trigger] px.contains(pr) && xs[i] == bucket_pair_feature(bbs, pr);
        assert(bucket_feature_in(bbs, ys[j], py));
        let b = choose|pr: (u64, u64)| #[trigger] py.contains(pr) && ys[j] == bucket_pair_feature(bbs, pr);
        assert((px + py).contains(a) && (px + py).contains(b));
    }
    vstd::seq_lib::lemma_no_dup_in_concat(xs, ys);
    let zs = xs + ys;
    assert forall|i: int| 0 <= i < zs.len() implies #[trigger] bucket_feature_in(bbs, zs[i], px + py) by {
        if i < xs.len() {
            assert(zs[i] == xs[i]);
            assert(bucket_feature_in(bbs, xs[i], px));
            let a = choose|pr: (u64, u64)| #[trigger] px.contains(pr) && xs[i] == bucket_pair_feature(bbs, pr);
            assert((px + py).contains(a));
        } else {
            assert(zs[i] == ys[i - xs.len()]);
            assert(bucket_feature_in(bbs, ys[i - xs.len()], py));
            let b = choose|pr: (u64, u64)| #[trigger] py.contains(pr) && ys[i - xs.len()] == bucket_pair_feature(bbs, pr);
            assert((px + py).contains(b));
        }
    }
}

proof fn lemma_bucket_subset(bbs: Seq<u64>, a: Set<(u64, u64)>, b: Set<(u64, u64)>)
    requires
        bucket_features_distinct(bbs, b),
        a.subset_of(b),
    ensures
        bucket_features_distinct(bbs, a),
{
}

proof fn lemma_listed_distinct(bbs: Seq<u64>, side: nat, piece: nat, from: u64, dests: Seq<usize>)
    requires
        dests.no_duplicates(),
        forall|i: int| 0 <= i < dests.len() ==> #[trigger] dests[i] < 64,
        color_on(bbs, from) == side,
        piece_on(bbs, from) == piece,
        bucket_features_distinct(bbs, listed_pairs(bbs, side, piece, from, dests)),
    ensures
        bucket_features_from(bbs, bucket_dests(bbs, side, piece, from, dests), listed_pairs(bbs, side, piece, from, dests)),
        bucket_dests(bbs, side, piece, from, dests).no_duplicates(),
    decreases dests.len(),
{
    let s = listed_pairs(bbs, side, piece, from, dests);
    let xs = bucket_dests(bbs, side, piece, from, dests);
    if dests.len() > 0 {
        let prev = dests.drop_last();
        let t = dests.last();
        assert(prev.no_duplicates()) by {
            assert forall|i: int, j: int| 0 <= i < prev.len() && 0 <= j < prev.len() && i != j implies prev[i] != prev[j] by {
                assert(prev[i] == dests[i] && prev[j] == dests[j]);
            }
        }
        assert forall|i: int| 0 <= i < prev.len() implies #[trigger] prev[i] < 64 by {
            assert(prev[i] == dests[i]);
        }
        let s0 = listed_pairs(bbs, side, piece, from, prev);
        assert forall|x: usize| #[trigger] dests.contains(x) == (prev.contains(x) || x == t) by {
            if dests.contains(x) {
                let i = choose|i: int| 0 <= i < dests.len() && dests[i] == x;
                if i < prev.len() {
                    assert(prev[i] == x);
                }
            }
            if prev.contains(x) {
                let i = choose|i: int| 0 <= i < prev.len() && prev[i] == x;
                assert(dests[i] == x);
            }
            if x == t {
                assert(dests[dests.len() - 1] == x);
            }
        }
        assert(!prev.contains(t)) by {
            if prev.contains(t) {
                let i = choose|i: int| 0 <= i < prev.len() && prev[i] == t;
                assert(dests[i] == dests[dests.len() - 1]);
            }
        }
        assert(t < 64) by {
            assert(dests[dests.len() - 1] < 64);
        }
        assert(s0.subset_of(s));
        lemma_bucket_subset(bbs, s0, s);
        lemma_listed_distinct(bbs, side, piece, from, prev);
        let xs0 = bucket_dests(bbs, side, piece, from, prev);
        let pt = (from, t as u64);
        if bucket_feature(bbs, side, piece, from, t as u64) {
            let v = bucket_pair_feature(bbs, pt);
            assert(xs == xs0.push(v));
            assert(s.contains(pt));
            assert forall|i: int| 0 <= i < xs0.len() implies xs0[i] != v by {
                assert(bucket_feature_in(bbs, xs0[i], s0));
                let a = choose|pr: (u64, u64)| #[trigger] s0.contains(pr) && xs0[i] == bucket_pair_feature(bbs, pr);
                assert(s.contains(a));
            }
            assert forall|i: int| 0 <= i < xs.len() implies #[trigger] bucket_feature_in(bbs, xs[i], s) by {
                if i < xs0.len() {
                    assert(bucket_feature_in(bbs, xs0[i], s0));
                    let a = choose|pr: (u64, u64)| #[trigger] s0.contains(pr) && xs0[i] == bucket_pair_feature(bbs, pr);
                    assert(s.contains(a));
                } else {
                    assert(xs[i] == v);
                }
            }
            assert forall|i: int, j: int| 0 <= i < xs.len() && 0 <= j < xs.len() && i != j implies xs[i] != xs[j] by {
                if i < xs0.len() && j < xs0.len() {
                    assert(xs[i] == xs0[i] && xs[j] == xs0[j]);
                }
            }
        } else {
            assert(xs == xs0);
            assert forall|i: int| 0 <= i < xs.len() implies #[trigger] bucket_feature_in(bbs, xs[i], s) by {
                assert(bucket_feature_in(bbs, xs0[i], s0));
                let a = choose|pr: (u64, u64)| #[trigger] s0.contains(pr) && xs0[i] == bucket_pair_feature(bbs, pr);
                assert(s.contains(a));
            }
        }
    }
}

proof fn lemma_square_distinct(bbs: Seq<u64>, side: nat, piece: nat, from: u64)
    requires
        color_on(bbs, from) == side,
        piece_on(bbs, from) == piece,
        bucket_features_distinct(bbs, bucket_square_pairs(bbs, side, piece, from)),
    ensures
        bucket_features_from(
            bbs,
            bucket_dests(bbs, side, piece, from, bucket_dest_list(bbs, side, piece, from)),
            bucket_square_pairs(bbs, side, piece, from),
        ),
        bucket_dests(bbs, side, piece, from, bucket_dest_list(bbs, side, piece, from)).no_duplicates(),
{
    let b = bucket_attacks(bbs, side, piece, from) & (bbs[0] | bbs[1]);
    let dests = squares_of(b);
    lemma_set_bits_len(b, 64);
    assert(dests.no_duplicates()) by {
        assert forall|i: int, j: int| 0 <= i < dests.len() && 0 <= j < dests.len() && i != j implies dests[i] != dests[j] by {
            if i < j {
                assert(dests[i] < dests[j]);
            } else {
                assert(dests[j] < dests[i]);
            }
        }
    }
    assert forall|pr: (u64, u64)| #[trigger] listed_pairs(bbs, side, piece, from, dests).contains(pr)
        == bucket_square_pairs(bbs, side, piece, from).contains(pr) by {
        if pr.1 < 64 {
            if bit_set(b, pr.1) {
                lemma_set_bits_complete(b, 64, pr.1);
            }
            if dests.contains(pr.1 as usize) {
                let i = choose|i: int| 0 <= i < dests.len() && dests[i] == pr.1 as usize;
                assert(bit_set(b, dests[i] as u64));
            }
        }
    }
    assert(listed_pairs(bbs, side, piece, from, dests) =~= bucket_square_pairs(bbs, side, piece, from));
    lemma_listed_distinct(bbs, side, piece, from, dests);
}

#[verifier::spinoff_prover]
proof fn lemma_froms_distinct(bbs: Seq<u64>, side: nat, piece: nat, froms: Seq<usize>)
    requires
        froms.no_duplicates(),
        forall|i: int| 0 <= i < froms.len() ==> #[trigger] froms[i] < 64,
        forall|i: int| 0 <= i < froms.len() ==> color_on(bbs, #[trigger] froms[i] as u64) == side && piece_on(bbs, froms[i] as u64) == piece,
        bucket_features_distinct(bbs, froms_pairs(bbs, side, piece, froms)),
    ensures
        bucket_features_from(bbs, bucket_froms(bbs, side, piece, froms), froms_pairs(bbs, side, piece, froms)),
        bucket_froms(bbs, side, piece, froms).no_duplicates(),
    decreases froms.len(),
{
    let s = froms_pairs(bbs, side, piece, froms);
    if froms.len() > 0 {
        let prev = froms.drop_last();
        let f = froms.last();
        assert(prev.no_duplicates()) by {
            assert forall|i: int, j: int| 0 <= i < prev.len() && 0 <= j < prev.len() && i != j implies prev[i] != prev[j] by {
                assert(prev[i] == froms[i] && prev[j] == froms[j]);
            }
        }
        assert forall|i: int| 0 <= i < prev.len() implies #[trigger] prev[i] < 64 by {
            assert(prev[i] == froms[i]);
        }
        assert forall|i: int| 0 <= i < prev.len() implies color_on(bbs, #[trigger] prev[i] as u64) == side && piece_on(bbs, prev[i] as u64) == piece by {
            assert(prev[i] == froms[i]);
        }
        let s0 = froms_pairs(bbs, side, piece, prev);
        let s1 = bucket_square_pairs(bbs, side, piece, f as u64);
        assert forall|x: usize| #[trigger] froms.contains(x) == (prev.contains(x) || x == f) by {
            if froms.contains(x) {
                let i = choose|i: int| 0 <= i < froms.len() && froms[i] == x;
                if i < prev.len() {
                    assert(prev[i] == x);
                }
            }
            if prev.contains(x) {
                let i = choose|i: int| 0 <= i < prev.len() && prev[i] == x;
                assert(froms[i] == x);
            }
            if x == f {
                assert(froms[froms.len() - 1] == x);
            }
        }
        assert(!prev.contains(f)) by {
            if prev.contains(f) {
                let i = choose|i: int| 0 <= i < prev.len() && prev[i] == f;
                assert(froms[i] == froms[froms.len() - 1]);
            }
        }
        assert(f < 64 && color_on(bbs, f as u64) == side && piece_on(bbs, f as u64) == piece) by {
            let last = froms.len() - 1;
            assert(froms[last] == f);
            assert(froms[last] < 64);
            assert(color_on(bbs, froms[last] as u64) == side && piece_on(bbs, froms[last] as u64) == piece);
        }
        assert(s =~= s0 + s1);
        assert(s0.disjoint(s1));
        lemma_bucket_subset(bbs, s0, s);
        lemma_bucket_subset(bbs, s1, s);
        lemma_froms_distinct(bbs, side, piece, prev);
        lemma_square_distinct(bbs, side, piece, f as u64);
        lemma_bucket_concat(
            bbs,
            bucket_froms(bbs, side, piece, prev),
            bucket_dests(bbs, side, piece, f as u64, bucket_dest_list(bbs, side, piece, f as u64)),
            s0,
            s1,
        );
    }
}

proof fn lemma_kind_distinct(bbs: Seq<u64>, side: nat, piece: nat)
    requires
        boards_consistent(bbs),
        side < 2,
        2 <= piece <= 7,
        bucket_features_distinct(bbs, kind_pairs(bbs, side, piece)),
    ensures
        bucket_features_from(
            bbs,
            bucket_froms(bbs, side, piece, squares_of(bbs[side as int] & bbs[piece as int])),
            kind_pairs(bbs, side, piece),
        ),
        bucket_froms(bbs, side, piece, squares_of(bbs[side as int] & bbs[piece as int])).no_duplicates(),
{
    let b = bbs[side as int] & bbs[piece as int];
    let froms = squares_of(b);
    lemma_set_bits_len(b, 64);
    assert(froms.no_duplicates()) by {
        assert forall|i: int, j: int| 0 <= i < froms.len() && 0 <= j < froms.len() && i != j implies froms[i] != froms[j] by {
            if i < j {
                assert(froms[i] < froms[j]);
            } else {
                assert(froms[j] < froms[i]);
            }
        }
    }
    assert forall|i: int| 0 <= i < froms.len() implies color_on(bbs, #[trigger] froms[i] as u64) == side && piece_on(bbs, froms[i] as u64) == piece by {
        lemma_owner_of(bbs, side, piece, froms[i] as u64);
    }
    assert forall|pr: (u64, u64)| #[trigger] froms_pairs(bbs, side, piece, froms).contains(pr)
        == kind_pairs(bbs, side, piece).contains(pr) by {
        if pr.0 < 64 {
            if bit_set(b, pr.0) {
                lemma_set_bits_complete(b, 64, pr.0);
            }
            if froms.contains(pr.0 as usize) {
                let i = choose|i: int| 0 <= i < froms.len() && froms[i] == pr.0 as usize;
                assert(bit_set(b, froms[i] as u64));
            }
        }
    }
    assert(froms_pairs(bbs, side, piece, froms) =~= kind_pairs(bbs, side, piece));
    lemma_froms_distinct(bbs, side, piece, froms);
}

proof fn lemma_side_distinct(bbs: Seq<u64>, side: nat, n: nat)
    requires
        boards_consistent(bbs),
        side < 2,
        n <= 6,
        bucket_features_distinct(bbs, side_pairs(bbs, side, n)),
    ensures
        bucket_features_from(bbs, bucket_side(bbs, side, n), side_pairs(bbs, side, n)),
        bucket_side(bbs, side, n).no_duplicates(),
    decreases n,
{
    let s = side_pairs(bbs, side, n);
    if n > 0 {
        let piece = (2 + n - 1) as nat;
        let s0 = side_pairs(bbs, side, (n - 1) as nat);
        let s1 = kind_pairs(bbs, side, piece);
        assert forall|pr: (u64, u64)| #[trigger] s.contains(pr) == (s0.contains(pr) || s1.contains(pr)) by {
            if pr.0 < 64 {
                lemma_owner_of(bbs, side, piece, pr.0);
            }
        }
        assert(s =~= s0 + s1);
        assert(s0.disjoint(s1)) by {
            assert forall|pr: (u64, u64)| s1.contains(pr) implies !s0.contains(pr) by {
                lemma_owner_of(bbs, side, piece, pr.0);
            }
        }
        lemma_bucket_subset(bbs, s0, s);
        lemma_bucket_subset(bbs, s1, s);
        lemma_side_distinct(bbs, side, (n - 1) as nat);
        lemma_kind_distinct(bbs, side, piece);
        lemma_bucket_concat(
            bbs,
            bucket_side(bbs, side, (n - 1) as nat),
            bucket_froms(bbs, side, piece, squares_of(bbs[side as int] & bbs[piece as int])),
            s0,
            s1,
        );
    }
}


proof fn lemma_half(o: nat, c: nat)
    by (nonlinear_arith)
    requires
        c < 2,
    ensures
        o * c == if c == 0 { 0 } else { o },
{
}

/// One side's bucketed features fit below the size of a half.
proof fn lemma_offset_end_bound()
    ensures
        offset_end() <= 504 + 52 * 4096,
{
    lemma_square_offset_bound(1, 0, 64);
    lemma_square_offset_bound(2, 0, 64);
    lemma_square_offset_bound(3, 0, 64);
    lemma_square_offset_bound(4, 0, 64);
    lemma_square_offset_bound(5, 0, 64);
}

/// What a threat with a bucketed feature is made of, on legal boards.
proof fn lemma_bucket_pair_facts(bbs: Seq<u64>, pr: (u64, u64))
    requires
        bbs.len() == 8,
        legal_boards(bbs),
        bucket_threats_ok(bbs),
        bucket_pairs(bbs).contains(pr),
    ensures
        ({
            let c = color_on(bbs, pr.0);
            let q = piece_on(bbs, pr.0);
            let k = code_on(bbs, pr.1);
            let e = bit_set(bbs[(1 - c) as int], pr.1);
            &&& c < 2 && 2 <= q <= 7 && pr.0 < 64 && pr.1 < 64
            &&& q == 2 ==> 8 <= pr.0 < 56 && pawn_capture(c as u64, pr.0, pr.1)
            &&& q != 2 ==> bit_set(pseudo_attack_set((q - 2) as nat, pr.0), pr.1)
            &&& piece_threat_ok(q, pr.0 as nat, pr.1 as nat, k, e)
            &&& piece_threat(q, pr.0 as nat, pr.1 as nat, k, e) is Some
        }),
{
    let f = pr.0;
    let t = pr.1;
    lemma_owned_piece(bbs, f);
    let c = color_on(bbs, f);
    let q = piece_on(bbs, f);
    let occ = bbs[0] | bbs[1];
    let b = bucket_attacks(bbs, c, q, f) & occ;
    assert(bit_set(b, t));
    lemma_set_bits_complete(b, 64, t);
    lemma_set_bits_len(b, 64);
    let k = choose|k: int| 0 <= k < squares_of(b).len() && squares_of(b)[k] == t as usize;
    assert(bucket_dest_list(bbs, c, q, f)[k] as u64 == t);
    lemma_bit_ops(bucket_attacks(bbs, c, q, f), occ, t);
    if q == 2 {
        lemma_bit_ops(bbs[c as int], bbs[2], f);
        lemma_board_of(|x: u64| pawn_capture(c as u64, f, x), t);
    } else {
        lemma_attacks_within_targets(q, f, occ, t);
        assert(target_set((q - 2) as nat, 0, f) == pseudo_attack_set((q - 2) as nat, f));
    }
}

/// On legal boards no two threats share a bucketed feature.
pub proof fn lemma_bucket_pairs_distinct(bbs: Seq<u64>)
    requires
        bbs.len() == 8,
        legal_boards(bbs),
    ensures
        bucket_features_distinct(bbs, bucket_pairs(bbs)),
{
    lemma_bucket_threats_ok(bbs);
    lemma_offset_end_bound();
    let ps = bucket_pairs(bbs);
    assert forall|pr1: (u64, u64), pr2: (u64, u64)|
        ps.contains(pr1) && ps.contains(pr2) && #[trigger] bucket_pair_feature(bbs, pr1) == #[trigger] bucket_pair_feature(
            bbs,
            pr2,
        ) implies pr1 == pr2 by {
        lemma_bucket_pair_facts(bbs, pr1);
        lemma_bucket_pair_facts(bbs, pr2);
        let c1 = color_on(bbs, pr1.0);
        let q1 = piece_on(bbs, pr1.0);
        let k1 = code_on(bbs, pr1.1);
        let e1 = bit_set(bbs[(1 - c1) as int], pr1.1);
        let c2 = color_on(bbs, pr2.0);
        let q2 = piece_on(bbs, pr2.0);
        let k2 = code_on(bbs, pr2.1);
        let e2 = bit_set(bbs[(1 - c2) as int], pr2.1);
        let v1 = piece_threat(q1, pr1.0 as nat, pr1.1 as nat, k1, e1)->0;
        let v2 = piece_threat(q2, pr2.0 as nat, pr2.1 as nat, k2, e2)->0;
        lemma_threat_in_range(q1, pr1.0, pr1.1, k1, e1);
        lemma_threat_in_range(q2, pr2.0, pr2.1, k2, e2);
        assert(range_end(q1) <= offset_end() && range_end(q2) <= offset_end());
        assert(0 <= v1 < offset_end() && 0 <= v2 < offset_end());
        lemma_half(offset_end(), c1);
        lemma_half(offset_end(), c2);
        assert(offset_end() * c1 + v1 == offset_end() * c2 + v2);
        assert(c1 == c2);
        lemma_piece_threat_injective(c1, q1, pr1.0, pr1.1, k1, e1, q2, pr2.0, pr2.1, k2, e2);
    }
}

/// No bucketed feature is emitted twice: on legal boards (one piece per occupied square, no
/// pawn on the first or last rank) the bucketed threat features are all different.
pub proof fn lemma_bucket_threats_distinct(bbs: Seq<u64>)
    requires
        bbs.len() == 8,
        boards_consistent(bbs),
        legal_boards(bbs),
    ensures
        bucket_threats(bbs).no_duplicates(),
{
    lemma_bucket_pairs_distinct(bbs);
    let s0 = side_pairs(bbs, 0, 6);
    let s1 = side_pairs(bbs, 1, 6);
    let s = bucket_pairs(bbs);
    assert forall|pr: (u64, u64)| #[trigger] s.contains(pr) == (s0.contains(pr) || s1.contains(pr)) by {
        if owned(bbs, pr.0) {
            lemma_owned_piece(bbs, pr.0);
        }
    }
    assert(s =~= s0 + s1);
    assert(s0.disjoint(s1));
    lemma_bucket_subset(bbs, s0, s);
    lemma_bucket_subset(bbs, s1, s);
    lemma_side_distinct(bbs, 0, 6);
    lemma_side_distinct(bbs, 1, 6);
    lemma_bucket_concat(bbs, bucket_side(bbs, 0, 6), bucket_side(bbs, 1, 6), s0, s1);
}

/// On a position that chess allows, neither side's bucketed threat features hold one feature
/// twice.
pub proof fn lemma_position_bucket_threats_distinct(pos: PackedBoard)
    requires
        legal_position(pos),
    ensures
        bucket_threats(oriented_boards(position_boards(pos))).no_duplicates(),
        bucket_threats(oriented_boards(swapped_boards(position_boards(pos)))).no_duplicates(),
{
    let bbs = position_boards(pos);
    lemma_position_boards_consistent(pos);
    assert(boards_sound(bbs));
    lemma_legal_position_in_range(pos);
    lemma_legal_oriented(bbs);
    lemma_oriented_count(bbs);
    lemma_swapped_count(bbs);
    lemma_oriented_count(swapped_boards(bbs));
    lemma_bucket_threats_distinct(oriented_boards(bbs));
    lemma_bucket_threats_distinct(oriented_boards(swapped_boards(bbs)));
}

} // verus!
