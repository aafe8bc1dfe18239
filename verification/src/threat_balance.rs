//! Both sides of a position see the same number of threats: the features of each perspective
//! stand for the same threats, except that of two equal pieces threatening each other each
//! perspective keeps one, chosen by the order of the squares as that perspective sees them.
use vstd::prelude::*;
use crate::bitboard::{bit_set, squares_of, lemma_bit_ops, lemma_set_bits_len, lemma_set_bits_complete};
use crate::geometry::{
    pawn_captures, pawn_pushes, pawn_capture, pawn_step, lemma_board_of, knight_jump, king_step,
    rook_sees, bishop_sees, lemma_attacks_symmetric, lemma_pawn_capture_diagonal,
};
use crate::full_threats::{
    threat_feature, color_on, piece_on, piece_attack_set, threats_to, threat_lists, threatened,
    square_threats, piece_threats, side_threats, full_threats, first_side, last_owner, pair_side,
    pair_piece, lemma_owner_valid, target_slot, orientation, board_covered, piece_boards,
    pieces_valid, position_boards, lemma_piece_boards_covered, target_set, threat_features,
    lemma_threat_feature_in_range, lemma_threat_feature_injective, lemma_attacks_within_targets,
    lemma_piece_offset_bound,
};
use crate::board::{PackedBoard, pieces_of, board_well_formed, pawns_inside};

verus! {

/// The threat of the piece (`side`, `piece`) on `from` against `to` has a feature, seen from
/// `perspective` with its king on `ksq`.
pub open spec fn has_feature(
    bbs: Seq<u64>,
    perspective: nat,
    ksq: nat,
    side: nat,
    piece: nat,
    from: u64,
    to: u64,
) -> bool {
    threat_feature(perspective, side, piece, from, to, color_on(bbs, to), piece_on(bbs, to), ksq) is Some
}

/// The piece (`side`, `piece`) on `from` threatens the occupied square `to`: a pawn by a
/// capture, or by a push onto a pawn; another piece by its attack.
pub open spec fn targets(bbs: Seq<u64>, side: nat, piece: nat, from: u64, to: u64) -> bool {
    let occ = bbs[0] | bbs[1];
    if piece == 2 {
        bit_set(pawn_captures(side as u64, from) & occ, to) || bit_set(
            pawn_pushes(side as u64, from) & bbs[2],
            to,
        )
    } else {
        bit_set(piece_attack_set(piece, from, occ) & occ, to)
    }
}

/// The threats, as (from, to) pairs, of the piece on `from` that have a feature.
pub open spec fn square_pairs(
    bbs: Seq<u64>,
    perspective: nat,
    ksq: nat,
    side: nat,
    piece: nat,
    from: u64,
) -> Set<(u64, u64)> {
    Set::new(
        |pr: (u64, u64)|
            pr.0 == from && pr.1 < 64 && targets(bbs, side, piece, from, pr.1) && has_feature(
                bbs,
                perspective,
                ksq,
                side,
                piece,
                from,
                pr.1,
            ),
    )
}

/// The threats with a feature of the piece on `from` against the squares listed in `tos`.
spec fn listed_pairs(
    bbs: Seq<u64>,
    perspective: nat,
    ksq: nat,
    side: nat,
    piece: nat,
    from: u64,
    tos: Seq<usize>,
) -> Set<(u64, u64)> {
    Set::new(
        |pr: (u64, u64)|
            pr.0 == from && pr.1 < 64 && tos.contains(pr.1 as usize) && has_feature(
                bbs,
                perspective,
                ksq,
                side,
                piece,
                from,
                pr.1,
            ),
    )
}

/// The threats with a feature of the piece on `from` against the squares of `b`.
spec fn board_pairs(
    bbs: Seq<u64>,
    perspective: nat,
    ksq: nat,
    side: nat,
    piece: nat,
    from: u64,
    b: u64,
) -> Set<(u64, u64)> {
    Set::new(
        |pr: (u64, u64)|
            pr.0 == from && pr.1 < 64 && bit_set(b, pr.1) && has_feature(
                bbs,
                perspective,
                ksq,
                side,
                piece,
                from,
                pr.1,
            ),
    )
}

proof fn lemma_listed_count(
    bbs: Seq<u64>,
    perspective: nat,
    ksq: nat,
    side: nat,
    piece: nat,
    from: u64,
    tos: Seq<usize>,
)
    requires
        tos.no_duplicates(),
        forall|i: int| 0 <= i < tos.len() ==> #[trigger] tos[i] < 64,
    ensures
        listed_pairs(bbs, perspective, ksq, side, piece, from, tos).finite(),
        threats_to(bbs, perspective, ksq, side, piece, from, tos).len() == listed_pairs(
            bbs,
            perspective,
            ksq,
            side,
            piece,
            from,
            tos,
        ).len(),
    decreases tos.len(),
{
    let s = listed_pairs(bbs, perspective, ksq, side, piece, from, tos);
    if tos.len() == 0 {
        assert(s =~= Set::empty());
    } else {
        let prev = tos.drop_last();
        let t = tos.last();
        assert(prev.no_duplicates()) by {
            assert forall|i: int, j: int| 0 <= i < prev.len() && 0 <= j < prev.len() && i != j implies prev[i] != prev[j] by {
                assert(prev[i] == tos[i] && prev[j] == tos[j]);
            }
        }
        assert forall|i: int| 0 <= i < prev.len() implies #[trigger] prev[i] < 64 by {
            assert(prev[i] == tos[i]);
        }
        lemma_listed_count(bbs, perspective, ksq, side, piece, from, prev);
        let s0 = listed_pairs(bbs, perspective, ksq, side, piece, from, prev);
        assert forall|x: usize| #[trigger] tos.contains(x) == (prev.contains(x) || x == t) by {
            if tos.contains(x) {
                let i = choose|i: int| 0 <= i < tos.len() && tos[i] == x;
                if i < prev.len() {
                    assert(prev[i] == x);
                }
            }
            if prev.contains(x) {
                let i = choose|i: int| 0 <= i < prev.len() && prev[i] == x;
                assert(tos[i] == x);
            }
            if x == t {
                assert(tos[tos.len() - 1] == x);
            }
        }
        assert(!prev.contains(t)) by {
            if prev.contains(t) {
                let i = choose|i: int| 0 <= i < prev.len() && prev[i] == t;
                assert(tos[i] == tos[tos.len() - 1]);
            }
        }
        assert(t < 64) by {
            assert(tos[tos.len() - 1] < 64);
        }
        let pt = (from, t as u64);
        if has_feature(bbs, perspective, ksq, side, piece, from, t as u64) {
            assert(s =~= s0.insert(pt));
            assert(!s0.contains(pt));
        } else {
            assert(s =~= s0);
        }
    }
}

proof fn lemma_board_count(
    bbs: Seq<u64>,
    perspective: nat,
    ksq: nat,
    side: nat,
    piece: nat,
    from: u64,
    b: u64,
)
    ensures
        board_pairs(bbs, perspective, ksq, side, piece, from, b).finite(),
        threats_to(bbs, perspective, ksq, side, piece, from, squares_of(b)).len() == board_pairs(
            bbs,
            perspective,
            ksq,
            side,
            piece,
            from,
            b,
        ).len(),
{
    let tos = squares_of(b);
    lemma_set_bits_len(b, 64);
    assert(tos.no_duplicates()) by {
        assert forall|i: int, j: int| 0 <= i < tos.len() && 0 <= j < tos.len() && i != j implies tos[i] != tos[j] by {
            if i < j {
                assert(tos[i] < tos[j]);
            } else {
                assert(tos[j] < tos[i]);
            }
        }
    }
    lemma_listed_count(bbs, perspective, ksq, side, piece, from, tos);
    assert forall|pr: (u64, u64)| #[trigger] listed_pairs(bbs, perspective, ksq, side, piece, from, tos).contains(pr)
        == board_pairs(bbs, perspective, ksq, side, piece, from, b).contains(pr) by {
        if pr.1 < 64 {
            if bit_set(b, pr.1) {
                lemma_set_bits_complete(b, 64, pr.1);
            }
            if tos.contains(pr.1 as usize) {
                let i = choose|i: int| 0 <= i < tos.len() && tos[i] == pr.1 as usize;
                assert(bit_set(b, tos[i] as u64));
            }
        }
    }
    assert(listed_pairs(bbs, perspective, ksq, side, piece, from, tos) =~= board_pairs(bbs, perspective, ksq, side, piece, from, b));
}

/// The features of the piece on `from` are as many as its threats that have one.
proof fn lemma_square_count(
    bbs: Seq<u64>,
    perspective: nat,
    ksq: nat,
    side: nat,
    piece: nat,
    from: u64,
)
    ensures
        square_pairs(bbs, perspective, ksq, side, piece, from).finite(),
        square_threats(bbs, perspective, ksq, side, piece, from).len() == square_pairs(
            bbs,
            perspective,
            ksq,
            side,
            piece,
            from,
        ).len(),
{
    let occ = bbs[0] | bbs[1];
    let lists = threatened(bbs, side, piece, from);
    let s = square_pairs(bbs, perspective, ksq, side, piece, from);
    if piece == 2 {
        let caps = pawn_captures(side as u64, from) & occ;
        let push = pawn_pushes(side as u64, from) & bbs[2];
        lemma_board_count(bbs, perspective, ksq, side, piece, from, caps);
        lemma_board_count(bbs, perspective, ksq, side, piece, from, push);
        let a = board_pairs(bbs, perspective, ksq, side, piece, from, caps);
        let c = board_pairs(bbs, perspective, ksq, side, piece, from, push);
        assert(lists.len() == 2);
        assert(lists.drop_last().drop_last() =~= Seq::<Seq<usize>>::empty());
        assert(lists.drop_last().last() == squares_of(caps));
        assert(lists.last() == squares_of(push));
        assert(threat_lists(bbs, perspective, ksq, side, piece, from, lists.drop_last().drop_last()) == Seq::<usize>::empty());
        assert(threat_lists(bbs, perspective, ksq, side, piece, from, lists.drop_last()) == Seq::<usize>::empty() + threats_to(bbs, perspective, ksq, side, piece, from, squares_of(caps)));
        assert(square_threats(bbs, perspective, ksq, side, piece, from) == threat_lists(bbs, perspective, ksq, side, piece, from, lists.drop_last()) + threats_to(bbs, perspective, ksq, side, piece, from, squares_of(push)));
        assert(s =~= a + c);
        assert(a.disjoint(c)) by {
            assert forall|pr: (u64, u64)| a.contains(pr) implies !c.contains(pr) by {
                lemma_bit_ops(pawn_captures(side as u64, from), occ, pr.1);
                lemma_bit_ops(pawn_pushes(side as u64, from), bbs[2], pr.1);
                lemma_board_of(|t: u64| pawn_capture(side as u64, from, t), pr.1);
                lemma_board_of(|t: u64| pawn_step(side as u64, from, t), pr.1);
            }
        }
        vstd::set_lib::lemma_set_disjoint_lens(a, c);
    } else {
        let att = piece_attack_set(piece, from, occ) & occ;
        lemma_board_count(bbs, perspective, ksq, side, piece, from, att);
        assert(lists.len() == 1);
        assert(lists.drop_last() =~= Seq::<Seq<usize>>::empty());
        assert(lists.last() == squares_of(att));
        assert(threat_lists(bbs, perspective, ksq, side, piece, from, lists.drop_last()) == Seq::<usize>::empty());
        assert(square_threats(bbs, perspective, ksq, side, piece, from) == Seq::<usize>::empty() + threats_to(bbs, perspective, ksq, side, piece, from, squares_of(att)));
        assert(s =~= board_pairs(bbs, perspective, ksq, side, piece, from, att));
    }
}

/// No square is claimed by two (colour, piece) pairs.
pub open spec fn boards_consistent(bbs: Seq<u64>) -> bool {
    forall|sq: u64, j1: nat, j2: nat|
        sq < 64 && j1 < 12 && j2 < 12 && #[trigger] bit_set(
            bbs[pair_side(j1) as int] & bbs[pair_piece(j1) as int],
            sq,
        ) && #[trigger] bit_set(bbs[pair_side(j2) as int] & bbs[pair_piece(j2) as int], sq)
            ==> j1 == j2
}

/// Some piece stands on `sq`.
pub open spec fn owned(bbs: Seq<u64>, sq: u64) -> bool {
    last_owner(bbs, sq, 12) is Some
}

proof fn lemma_owner_unique(bbs: Seq<u64>, sq: u64, j: nat, k: nat)
    requires
        boards_consistent(bbs),
        sq < 64,
        j < k <= 12,
        bit_set(bbs[pair_side(j) as int] & bbs[pair_piece(j) as int], sq),
    ensures
        last_owner(bbs, sq, k) == Some(j),
    decreases k,
{
    let j2 = (k - 1) as nat;
    if j2 != j {
        if bit_set(bbs[pair_side(j2) as int] & bbs[pair_piece(j2) as int], sq) {
            assert(false);
        } else {
            lemma_owner_unique(bbs, sq, j, j2);
        }
    }
}

/// On consistent boards, the pair (`side`, `piece`) claims `sq` exactly when that piece stands
/// there.
pub proof fn lemma_owner_of(bbs: Seq<u64>, side: nat, piece: nat, sq: u64)
    requires
        boards_consistent(bbs),
        side < 2,
        2 <= piece <= 7,
        sq < 64,
    ensures
        bit_set(bbs[side as int] & bbs[piece as int], sq) <==> (owned(bbs, sq) && color_on(bbs, sq)
            == side && piece_on(bbs, sq) == piece),
{
    let j: nat = (6 * side + piece - 2) as nat;
    assert(pair_side(j) == side && pair_piece(j) == piece);
    if bit_set(bbs[side as int] & bbs[piece as int], sq) {
        lemma_owner_unique(bbs, sq, j, 12);
    }
    if owned(bbs, sq) {
        lemma_owner_valid(bbs, sq, 12);
    }
}

/// The piece on an occupied square has a colour and a piece type.
pub proof fn lemma_owned_piece(bbs: Seq<u64>, sq: u64)
    requires
        owned(bbs, sq),
    ensures
        color_on(bbs, sq) < 2,
        2 <= piece_on(bbs, sq) <= 7,
        bit_set(bbs[color_on(bbs, sq) as int] & bbs[piece_on(bbs, sq) as int], sq),
{
    lemma_owner_valid(bbs, sq, 12);
}

spec fn froms_pairs(
    bbs: Seq<u64>,
    perspective: nat,
    ksq: nat,
    side: nat,
    piece: nat,
    froms: Seq<usize>,
) -> Set<(u64, u64)> {
    Set::new(
        |pr: (u64, u64)|
            pr.0 < 64 && froms.contains(pr.0 as usize) && square_pairs(
                bbs,
                perspective,
                ksq,
                side,
                piece,
                pr.0,
            ).contains(pr),
    )
}

proof fn lemma_froms_count(
    bbs: Seq<u64>,
    perspective: nat,
    ksq: nat,
    side: nat,
    piece: nat,
    froms: Seq<usize>,
)
    requires
        froms.no_duplicates(),
        forall|i: int| 0 <= i < froms.len() ==> #[trigger] froms[i] < 64,
    ensures
        froms_pairs(bbs, perspective, ksq, side, piece, froms).finite(),
        piece_threats(bbs, perspective, ksq, side, piece, froms).len() == froms_pairs(
            bbs,
            perspective,
            ksq,
            side,
            piece,
            froms,
        ).len(),
    decreases froms.len(),
{
    let s = froms_pairs(bbs, perspective, ksq, side, piece, froms);
    if froms.len() == 0 {
        assert(s =~= Set::empty());
    } else {
        let prev = froms.drop_last();
        let f = froms.last();
        assert(prev.no_duplicates()) by {
            assert forall|i: int, j: int| 0 <= i < prev.len() && 0 <= j < prev.len() && i != j implies prev[i] != prev[j] by {
                assert(prev[i] == froms[i] && prev[j] == froms[j]);
            }
        }
        assert forall|i: int| 0 <= i < prev.len() implies #[trigger] prev[i] < 64 by {
            assert(prev[i] == froms[i]);
        }
        lemma_froms_count(bbs, perspective, ksq, side, piece, prev);
        lemma_square_count(bbs, perspective, ksq, side, piece, f as u64);
        let s0 = froms_pairs(bbs, perspective, ksq, side, piece, prev);
        let s1 = square_pairs(bbs, perspective, ksq, side, piece, f as u64);
        assert forall|x: usize| #[trigger] froms.contains(x) == (prev.contains(x) || x == f) by {
            if froms.contains(x) {
                let i = choose|i: int| 0 <= i < froms.len() && froms[i] == x;
                if i < prev.len() {
                    assert(prev[i] == x);
                }
            }
            if prev.contains(x) {
                let i = choose|i: int| 0 <= i < prev.len() && prev[i] == x;
                assert(froms[i] == x);
            }
            if x == f {
                assert(froms[froms.len() - 1] == x);
            }
        }
        assert(!prev.contains(f)) by {
            if prev.contains(f) {
                let i = choose|i: int| 0 <= i < prev.len() && prev[i] == f;
                assert(froms[i] == froms[froms.len() - 1]);
            }
        }
        assert(f < 64) by {
            assert(froms[froms.len() - 1] < 64);
        }
        assert(s =~= s0 + s1);
        assert(s0.disjoint(s1));
        vstd::set_lib::lemma_set_disjoint_lens(s0, s1);
    }
}

/// The threats with a feature of the pieces (`side`, `piece`).
spec fn kind_pairs(bbs: Seq<u64>, perspective: nat, ksq: nat, side: nat, piece: nat) -> Set<
    (u64, u64),
> {
    Set::new(
        |pr: (u64, u64)|
            pr.0 < 64 && bit_set(bbs[side as int] & bbs[piece as int], pr.0) && square_pairs(
                bbs,
                perspective,
                ksq,
                side,
                piece,
                pr.0,
            ).contains(pr),
    )
}

proof fn lemma_kind_count(bbs: Seq<u64>, perspective: nat, ksq: nat, side: nat, piece: nat)
    ensures
        kind_pairs(bbs, perspective, ksq, side, piece).finite(),
        piece_threats(
            bbs,
            perspective,
            ksq,
            side,
            piece,
            squares_of(bbs[side as int] & bbs[piece as int]),
        ).len() == kind_pairs(bbs, perspective, ksq, side, piece).len(),
{
    let b = bbs[side as int] & bbs[piece as int];
    let froms = squares_of(b);
    lemma_set_bits_len(b, 64);
    assert(froms.no_duplicates()) by {
        assert forall|i: int, j: int| 0 <= i < froms.len() && 0 <= j < froms.len() && i != j implies froms[i] != froms[j] by {
            if i < j {
                assert(froms[i] < froms[j]);
            } else {
                assert(froms[j] < froms[i]);
            }
        }
    }
    lemma_froms_count(bbs, perspective, ksq, side, piece, froms);
    assert forall|pr: (u64, u64)| #[trigger] froms_pairs(bbs, perspective, ksq, side, piece, froms).contains(pr)
        == kind_pairs(bbs, perspective, ksq, side, piece).contains(pr) by {
        if pr.0 < 64 {
            if bit_set(b, pr.0) {
                lemma_set_bits_complete(b, 64, pr.0);
            }
            if froms.contains(pr.0 as usize) {
                let i = choose|i: int| 0 <= i < froms.len() && froms[i] == pr.0 as usize;
                assert(bit_set(b, froms[i] as u64));
            }
        }
    }
    assert(froms_pairs(bbs, perspective, ksq, side, piece, froms) =~= kind_pairs(bbs, perspective, ksq, side, piece));
}

/// The threats with a feature of the pieces of `side` of the first `n` types (pawn first).
spec fn side_pairs(bbs: Seq<u64>, perspective: nat, ksq: nat, side: nat, n: nat) -> Set<(u64, u64)> {
    Set::new(
        |pr: (u64, u64)|
            pr.0 < 64 && owned(bbs, pr.0) && color_on(bbs, pr.0) == side && 2 <= piece_on(bbs, pr.0)
                < 2 + n && square_pairs(
                bbs,
                perspective,
                ksq,
                side,
                piece_on(bbs, pr.0),
                pr.0,
            ).contains(pr),
    )
}

proof fn lemma_side_count(bbs: Seq<u64>, perspective: nat, ksq: nat, side: nat, n: nat)
    requires
        boards_consistent(bbs),
        side < 2,
        n <= 6,
    ensures
        side_pairs(bbs, perspective, ksq, side, n).finite(),
        side_threats(bbs, perspective, ksq, side, n).len() == side_pairs(
            bbs,
            perspective,
            ksq,
            side,
            n,
        ).len(),
    decreases n,
{
    let s = side_pairs(bbs, perspective, ksq, side, n);
    if n == 0 {
        assert(s =~= Set::empty());
    } else {
        let piece = (2 + n - 1) as nat;
        lemma_side_count(bbs, perspective, ksq, side, (n - 1) as nat);
        lemma_kind_count(bbs, perspective, ksq, side, piece);
        let s0 = side_pairs(bbs, perspective, ksq, side, (n - 1) as nat);
        let s1 = kind_pairs(bbs, perspective, ksq, side, piece);
        assert forall|pr: (u64, u64)| #[trigger] s.contains(pr) == (s0.contains(pr) || s1.contains(pr)) by {
            if pr.0 < 64 {
                lemma_owner_of(bbs, side, piece, pr.0);
            }
        }
        assert(s =~= s0 + s1);
        assert(s0.disjoint(s1)) by {
            assert forall|pr: (u64, u64)| s1.contains(pr) implies !s0.contains(pr) by {
                lemma_owner_of(bbs, side, piece, pr.0);
            }
        }
        vstd::set_lib::lemma_set_disjoint_lens(s0, s1);
    }
}

/// The threats, as (from, to) pairs, that have a feature seen from `perspective` with its
/// king on `ksq`.
pub open spec fn feature_pairs(bbs: Seq<u64>, perspective: nat, ksq: nat) -> Set<(u64, u64)> {
    Set::new(
        |pr: (u64, u64)|
            pr.0 < 64 && owned(bbs, pr.0) && square_pairs(
                bbs,
                perspective,
                ksq,
                color_on(bbs, pr.0),
                piece_on(bbs, pr.0),
                pr.0,
            ).contains(pr),
    )
}

/// The features of a perspective are as many as the threats that have one.
pub proof fn lemma_full_count(bbs: Seq<u64>, perspective: nat, ksq: nat)
    requires
        boards_consistent(bbs),
    ensures
        feature_pairs(bbs, perspective, ksq).finite(),
        full_threats(bbs, perspective, ksq).len() == feature_pairs(bbs, perspective, ksq).len(),
{
    let first = first_side(perspective);
    let second = (1 - first) as nat;
    lemma_side_count(bbs, perspective, ksq, first, 6);
    lemma_side_count(bbs, perspective, ksq, second, 6);
    let s0 = side_pairs(bbs, perspective, ksq, first, 6);
    let s1 = side_pairs(bbs, perspective, ksq, second, 6);
    let s = feature_pairs(bbs, perspective, ksq);
    assert forall|pr: (u64, u64)| #[trigger] s.contains(pr) == (s0.contains(pr) || s1.contains(pr)) by {
        if owned(bbs, pr.0) {
            lemma_owned_piece(bbs, pr.0);
        }
    }
    assert(s =~= s0 + s1);
    assert(s0.disjoint(s1));
    vstd::set_lib::lemma_set_disjoint_lens(s0, s1);
}

/// The feature of the threat `pr` from the piece on its first square, seen from `perspective`
/// with its king on `ksq`.
pub open spec fn pair_feature(bbs: Seq<u64>, perspective: nat, ksq: nat, pr: (u64, u64)) -> usize {
    (threat_feature(
        perspective,
        color_on(bbs, pr.0),
        piece_on(bbs, pr.0),
        pr.0,
        pr.1,
        color_on(bbs, pr.1),
        piece_on(bbs, pr.1),
        ksq,
    )->0) as usize
}

/// No two threats of `ps` share a feature.
pub open spec fn features_distinct(bbs: Seq<u64>, perspective: nat, ksq: nat, ps: Set<(u64, u64)>) -> bool {
    forall|pr1: (u64, u64), pr2: (u64, u64)|
        ps.contains(pr1) && ps.contains(pr2) && #[trigger] pair_feature(bbs, perspective, ksq, pr1)
            == #[trigger] pair_feature(bbs, perspective, ksq, pr2) ==> pr1 == pr2
}

/// `x` is the feature of a threat of `ps`.
pub open spec fn feature_in(bbs: Seq<u64>, perspective: nat, ksq: nat, x: usize, ps: Set<(u64, u64)>) -> bool {
    exists|pr: (u64, u64)| #[trigger] ps.contains(pr) && x == pair_feature(bbs, perspective, ksq, pr)
}

/// Every entry of `xs` is the feature of a threat of `ps`.
pub open spec fn features_from(bbs: Seq<u64>, perspective: nat, ksq: nat, xs: Seq<usize>, ps: Set<(u64, u64)>) -> bool {
    forall|i: int| 0 <= i < xs.len() ==> #[trigger] feature_in(bbs, perspective, ksq, xs[i], ps)
}

proof fn lemma_concat_distinct(
    bbs: Seq<u64>,
    perspective: nat,
    ksq: nat,
    xs: Seq<usize>,
    ys: Seq<usize>,
    px: Set<(u64, u64)>,
    py: Set<(u64, u64)>,
)
    requires
        features_from(bbs, perspective, ksq, xs, px),
        features_from(bbs, perspective, ksq, ys, py),
        xs.no_duplicates(),
        ys.no_duplicates(),
        px.disjoint(py),
        features_distinct(bbs, perspective, ksq, px + py),
    ensures
        features_from(bbs, perspective, ksq, xs + ys, px + py),
        (xs + ys).no_duplicates(),
{
    assert forall|i: int, j: int| 0 <= i < xs.len() && 0 <= j < ys.len() implies xs[i] != ys[j] by {
        assert(feature_in(bbs, perspective, ksq, xs[i], px));
        let a = choose|pr: (u64, u64)| #[trigger] px.contains(pr) && xs[i] == pair_feature(bbs, perspective, ksq, pr);
        assert(feature_in(bbs, perspective, ksq, ys[j], py));
        let b = choose|pr: (u64, u64)| #[trigger] py.contains(pr) && ys[j] == pair_feature(bbs, perspective, ksq, pr);
        assert((px + py).contains(a) && (px + py).contains(b));
    }
    vstd::seq_lib::lemma_no_dup_in_concat(xs, ys);
    let zs = xs + ys;
    assert forall|i: int| 0 <= i < zs.len() implies #[trigger] feature_in(bbs, perspective, ksq, zs[i], (px + py)) by {
        if i < xs.len() {
            assert(zs[i] == xs[i]);
            assert(feature_in(bbs, perspective, ksq, xs[i], px));
            let a = choose|pr: (u64, u64)| #[trigger] px.contains(pr) && xs[i] == pair_feature(bbs, perspective, ksq, pr);
            assert((px + py).contains(a));
        } else {
            assert(zs[i] == ys[i - xs.len()]);
            assert(feature_in(bbs, perspective, ksq, ys[i - xs.len()], py));
            let b = choose|pr: (u64, u64)| #[trigger] py.contains(pr) && ys[i - xs.len()] == pair_feature(bbs, perspective, ksq, pr);
            assert((px + py).contains(b));
        }
    }
    assert(features_from(bbs, perspective, ksq, zs, px + py));
}

proof fn lemma_distinct_subset(bbs: Seq<u64>, perspective: nat, ksq: nat, a: Set<(u64, u64)>, b: Set<(u64, u64)>)
    requires
        features_distinct(bbs, perspective, ksq, b),
        a.subset_of(b),
    ensures
        features_distinct(bbs, perspective, ksq, a),
{
}

proof fn lemma_listed_distinct(
    bbs: Seq<u64>,
    perspective: nat,
    ksq: nat,
    side: nat,
    piece: nat,
    from: u64,
    tos: Seq<usize>,
)
    requires
        tos.no_duplicates(),
        forall|i: int| 0 <= i < tos.len() ==> #[trigger] tos[i] < 64,
        color_on(bbs, from) == side,
        piece_on(bbs, from) == piece,
        features_distinct(bbs, perspective, ksq, listed_pairs(bbs, perspective, ksq, side, piece, from, tos)),
    ensures
        features_from(
            bbs,
            perspective,
            ksq,
            threats_to(bbs, perspective, ksq, side, piece, from, tos),
            listed_pairs(bbs, perspective, ksq, side, piece, from, tos),
        ),
        threats_to(bbs, perspective, ksq, side, piece, from, tos).no_duplicates(),
    decreases tos.len(),
{
    let s = listed_pairs(bbs, perspective, ksq, side, piece, from, tos);
    let xs = threats_to(bbs, perspective, ksq, side, piece, from, tos);
    if tos.len() > 0 {
        let prev = tos.drop_last();
        let t = tos.last();
        assert(prev.no_duplicates()) by {
            assert forall|i: int, j: int| 0 <= i < prev.len() && 0 <= j < prev.len() && i != j implies prev[i] != prev[j] by {
                assert(prev[i] == tos[i] && prev[j] == tos[j]);
            }
        }
        assert forall|i: int| 0 <= i < prev.len() implies #[trigger] prev[i] < 64 by {
            assert(prev[i] == tos[i]);
        }
        let s0 = listed_pairs(bbs, perspective, ksq, side, piece, from, prev);
        assert forall|x: usize| #[trigger] tos.contains(x) == (prev.contains(x) || x == t) by {
            if tos.contains(x) {
                let i = choose|i: int| 0 <= i < tos.len() && tos[i] == x;
                if i < prev.len() {
                    assert(prev[i] == x);
                }
            }
            if prev.contains(x) {
                let i = choose|i: int| 0 <= i < prev.len() && prev[i] == x;
                assert(tos[i] == x);
            }
            if x == t {
                assert(tos[tos.len() - 1] == x);
            }
        }
        assert(!prev.contains(t)) by {
            if prev.contains(t) {
                let i = choose|i: int| 0 <= i < prev.len() && prev[i] == t;
                assert(tos[i] == tos[tos.len() - 1]);
            }
        }
        assert(t < 64) by {
            assert(tos[tos.len() - 1] < 64);
        }
        assert(s0.subset_of(s));
        lemma_distinct_subset(bbs, perspective, ksq, s0, s);
        lemma_listed_distinct(bbs, perspective, ksq, side, piece, from, prev);
        let xs0 = threats_to(bbs, perspective, ksq, side, piece, from, prev);
        let pt = (from, t as u64);
        if has_feature(bbs, perspective, ksq, side, piece, from, t as u64) {
            let v = pair_feature(bbs, perspective, ksq, pt);
            assert(xs == xs0.push(v));
            assert(s.contains(pt));
            assert forall|i: int| 0 <= i < xs0.len() implies xs0[i] != v by {
                assert(feature_in(bbs, perspective, ksq, xs0[i], s0));
                let a = choose|pr: (u64, u64)| #[trigger] s0.contains(pr) && xs0[i] == pair_feature(bbs, perspective, ksq, pr);
                assert(s.contains(a));
            }
            assert forall|i: int| 0 <= i < xs.len() implies #[trigger] feature_in(bbs, perspective, ksq, xs[i], s) by {
                if i < xs0.len() {
                    assert(feature_in(bbs, perspective, ksq, xs0[i], s0));
                    let a = choose|pr: (u64, u64)| #[trigger] s0.contains(pr) && xs0[i] == pair_feature(bbs, perspective, ksq, pr);
                    assert(s.contains(a));
                } else {
                    assert(xs[i] == v);
                }
            }
            assert forall|i: int, j: int| 0 <= i < xs.len() && 0 <= j < xs.len() && i != j implies xs[i] != xs[j] by {
                if i < xs0.len() && j < xs0.len() {
                    assert(xs[i] == xs0[i] && xs[j] == xs0[j]);
                }
            }
        } else {
            assert(xs == xs0);
            assert forall|i: int| 0 <= i < xs.len() implies #[trigger] feature_in(bbs, perspective, ksq, xs[i], s) by {
                assert(feature_in(bbs, perspective, ksq, xs0[i], s0));
                let a = choose|pr: (u64, u64)| #[trigger] s0.contains(pr) && xs0[i] == pair_feature(bbs, perspective, ksq, pr);
                assert(s.contains(a));
            }
        }
    }
}

proof fn lemma_board_distinct(
    bbs: Seq<u64>,
    perspective: nat,
    ksq: nat,
    side: nat,
    piece: nat,
    from: u64,
    b: u64,
)
    requires
        color_on(bbs, from) == side,
        piece_on(bbs, from) == piece,
        features_distinct(bbs, perspective, ksq, board_pairs(bbs, perspective, ksq, side, piece, from, b)),
    ensures
        features_from(
            bbs,
            perspective,
            ksq,
            threats_to(bbs, perspective, ksq, side, piece, from, squares_of(b)),
            board_pairs(bbs, perspective, ksq, side, piece, from, b),
        ),
        threats_to(bbs, perspective, ksq, side, piece, from, squares_of(b)).no_duplicates(),
{
    let tos = squares_of(b);
    lemma_set_bits_len(b, 64);
    assert(tos.no_duplicates()) by {
        assert forall|i: int, j: int| 0 <= i < tos.len() && 0 <= j < tos.len() && i != j implies tos[i] != tos[j] by {
            if i < j {
                assert(tos[i] < tos[j]);
            } else {
                assert(tos[j] < tos[i]);
            }
        }
    }
    assert forall|pr: (u64, u64)| #[trigger] listed_pairs(bbs, perspective, ksq, side, piece, from, tos).contains(pr)
        == board_pairs(bbs, perspective, ksq, side, piece, from, b).contains(pr) by {
        if pr.1 < 64 {
            if bit_set(b, pr.1) {
                lemma_set_bits_complete(b, 64, pr.1);
            }
            if tos.contains(pr.1 as usize) {
                let i = choose|i: int| 0 <= i < tos.len() && tos[i] == pr.1 as usize;
                assert(bit_set(b, tos[i] as u64));
            }
        }
    }
    assert(listed_pairs(bbs, perspective, ksq, side, piece, from, tos) =~= board_pairs(bbs, perspective, ksq, side, piece, from, b));
    lemma_listed_distinct(bbs, perspective, ksq, side, piece, from, tos);
}

proof fn lemma_square_distinct(bbs: Seq<u64>, perspective: nat, ksq: nat, side: nat, piece: nat, from: u64)
    requires
        color_on(bbs, from) == side,
        piece_on(bbs, from) == piece,
        features_distinct(bbs, perspective, ksq, square_pairs(bbs, perspective, ksq, side, piece, from)),
    ensures
        features_from(
            bbs,
            perspective,
            ksq,
            square_threats(bbs, perspective, ksq, side, piece, from),
            square_pairs(bbs, perspective, ksq, side, piece, from),
        ),
        square_threats(bbs, perspective, ksq, side, piece, from).no_duplicates(),
{
    let occ = bbs[0] | bbs[1];
    let lists = threatened(bbs, side, piece, from);
    let s = square_pairs(bbs, perspective, ksq, side, piece, from);
    if piece == 2 {
        let caps = pawn_captures(side as u64, from) & occ;
        let push = pawn_pushes(side as u64, from) & bbs[2];
        let a = board_pairs(bbs, perspective, ksq, side, piece, from, caps);
        let c = board_pairs(bbs, perspective, ksq, side, piece, from, push);
        assert(lists.len() == 2);
        assert(lists.drop_last().drop_last() =~= Seq::<Seq<usize>>::empty());
        assert(lists.drop_last().last() == squares_of(caps));
        assert(lists.last() == squares_of(push));
        assert(threat_lists(bbs, perspective, ksq, side, piece, from, lists.drop_last().drop_last()) == Seq::<usize>::empty());
        assert(threat_lists(bbs, perspective, ksq, side, piece, from, lists.drop_last()) == Seq::<usize>::empty() + threats_to(bbs, perspective, ksq, side, piece, from, squares_of(caps)));
        assert(threats_to(bbs, perspective, ksq, side, piece, from, squares_of(caps)) == Seq::<usize>::empty() + threats_to(bbs, perspective, ksq, side, piece, from, squares_of(caps)));
        assert(square_threats(bbs, perspective, ksq, side, piece, from) == threat_lists(bbs, perspective, ksq, side, piece, from, lists.drop_last()) + threats_to(bbs, perspective, ksq, side, piece, from, squares_of(push)));
        assert(s =~= a + c);
        assert(a.disjoint(c)) by {
            assert forall|pr: (u64, u64)| a.contains(pr) implies !c.contains(pr) by {
                lemma_bit_ops(pawn_captures(side as u64, from), occ, pr.1);
                lemma_bit_ops(pawn_pushes(side as u64, from), bbs[2], pr.1);
                lemma_board_of(|t: u64| pawn_capture(side as u64, from, t), pr.1);
                lemma_board_of(|t: u64| pawn_step(side as u64, from, t), pr.1);
            }
        }
        lemma_distinct_subset(bbs, perspective, ksq, a, s);
        lemma_distinct_subset(bbs, perspective, ksq, c, s);
        lemma_board_distinct(bbs, perspective, ksq, side, piece, from, caps);
        lemma_board_distinct(bbs, perspective, ksq, side, piece, from, push);
        lemma_concat_distinct(
            bbs,
            perspective,
            ksq,
            threats_to(bbs, perspective, ksq, side, piece, from, squares_of(caps)),
            threats_to(bbs, perspective, ksq, side, piece, from, squares_of(push)),
            a,
            c,
        );
    } else {
        let att = piece_attack_set(piece, from, occ) & occ;
        assert(lists.len() == 1);
        assert(lists.drop_last() =~= Seq::<Seq<usize>>::empty());
        assert(lists.last() == squares_of(att));
        assert(threat_lists(bbs, perspective, ksq, side, piece, from, lists.drop_last()) == Seq::<usize>::empty());
        assert(square_threats(bbs, perspective, ksq, side, piece, from) == Seq::<usize>::empty() + threats_to(bbs, perspective, ksq, side, piece, from, squares_of(att)));
        assert(Seq::<usize>::empty() + threats_to(bbs, perspective, ksq, side, piece, from, squares_of(att)) == threats_to(bbs, perspective, ksq, side, piece, from, squares_of(att)));
        assert(s =~= board_pairs(bbs, perspective, ksq, side, piece, from, att));
        lemma_board_distinct(bbs, perspective, ksq, side, piece, from, att);
    }
}

#[verifier::spinoff_prover]
proof fn lemma_froms_distinct(
    bbs: Seq<u64>,
    perspective: nat,
    ksq: nat,
    side: nat,
    piece: nat,
    froms: Seq<usize>,
)
    requires
        froms.no_duplicates(),
        forall|i: int| 0 <= i < froms.len() ==> #[trigger] froms[i] < 64,
        forall|i: int| 0 <= i < froms.len() ==> color_on(bbs, #[trigger] froms[i] as u64) == side && piece_on(bbs, froms[i] as u64) == piece,
        features_distinct(bbs, perspective, ksq, froms_pairs(bbs, perspective, ksq, side, piece, froms)),
    ensures
        features_from(
            bbs,
            perspective,
            ksq,
            piece_threats(bbs, perspective, ksq, side, piece, froms),
            froms_pairs(bbs, perspective, ksq, side, piece, froms),
        ),
        piece_threats(bbs, perspective, ksq, side, piece, froms).no_duplicates(),
    decreases froms.len(),
{
    let s = froms_pairs(bbs, perspective, ksq, side, piece, froms);
    if froms.len() > 0 {
        let prev = froms.drop_last();
        let f = froms.last();
        assert(prev.no_duplicates()) by {
            assert forall|i: int, j: int| 0 <= i < prev.len() && 0 <= j < prev.len() && i != j implies prev[i] != prev[j] by {
                assert(prev[i] == froms[i] && prev[j] == froms[j]);
            }
        }
        assert forall|i: int| 0 <= i < prev.len() implies #[trigger] prev[i] < 64 by {
            assert(prev[i] == froms[i]);
        }
        assert forall|i: int| 0 <= i < prev.len() implies color_on(bbs, #[trigger] prev[i] as u64) == side && piece_on(bbs, prev[i] as u64) == piece by {
            assert(prev[i] == froms[i]);
        }
        let s0 = froms_pairs(bbs, perspective, ksq, side, piece, prev);
        let s1 = square_pairs(bbs, perspective, ksq, side, piece, f as u64);
        assert forall|x: usize| #[trigger] froms.contains(x) == (prev.contains(x) || x == f) by {
            if froms.contains(x) {
                let i = choose|i: int| 0 <= i < froms.len() && froms[i] == x;
                if i < prev.len() {
                    assert(prev[i] == x);
                }
            }
            if prev.contains(x) {
                let i = choose|i: int| 0 <= i < prev.len() && prev[i] == x;
                assert(froms[i] == x);
            }
            if x == f {
                assert(froms[froms.len() - 1] == x);
            }
        }
        assert(!prev.contains(f)) by {
            if prev.contains(f) {
                let i = choose|i: int| 0 <= i < prev.len() && prev[i] == f;
                assert(froms[i] == froms[froms.len() - 1]);
            }
        }
        assert(f < 64 && color_on(bbs, f as u64) == side && piece_on(bbs, f as u64) == piece) by {
            let last = froms.len() - 1;
            assert(froms[last] == f);
            assert(froms[last] < 64);
            assert(color_on(bbs, froms[last] as u64) == side && piece_on(bbs, froms[last] as u64) == piece);
        }
        assert(s =~= s0 + s1);
        assert(s0.disjoint(s1));
        lemma_distinct_subset(bbs, perspective, ksq, s0, s);
        lemma_distinct_subset(bbs, perspective, ksq, s1, s);
        lemma_froms_distinct(bbs, perspective, ksq, side, piece, prev);
        lemma_square_distinct(bbs, perspective, ksq, side, piece, f as u64);
        lemma_concat_distinct(
            bbs,
            perspective,
            ksq,
            piece_threats(bbs, perspective, ksq, side, piece, prev),
            square_threats(bbs, perspective, ksq, side, piece, f as u64),
            s0,
            s1,
        );
    }
}

proof fn lemma_kind_distinct(bbs: Seq<u64>, perspective: nat, ksq: nat, side: nat, piece: nat)
    requires
        boards_consistent(bbs),
        side < 2,
        2 <= piece <= 7,
        features_distinct(bbs, perspective, ksq, kind_pairs(bbs, perspective, ksq, side, piece)),
    ensures
        features_from(
            bbs,
            perspective,
            ksq,
            piece_threats(bbs, perspective, ksq, side, piece, squares_of(bbs[side as int] & bbs[piece as int])),
            kind_pairs(bbs, perspective, ksq, side, piece),
        ),
        piece_threats(bbs, perspective, ksq, side, piece, squares_of(bbs[side as int] & bbs[piece as int])).no_duplicates(),
{
    let b = bbs[side as int] & bbs[piece as int];
    let froms = squares_of(b);
    lemma_set_bits_len(b, 64);
    assert(froms.no_duplicates()) by {
        assert forall|i: int, j: int| 0 <= i < froms.len() && 0 <= j < froms.len() && i != j implies froms[i] != froms[j] by {
            if i < j {
                assert(froms[i] < froms[j]);
            } else {
                assert(froms[j] < froms[i]);
            }
        }
    }
    assert forall|i: int| 0 <= i < froms.len() implies color_on(bbs, #[trigger] froms[i] as u64) == side && piece_on(bbs, froms[i] as u64) == piece by {
        lemma_owner_of(bbs, side, piece, froms[i] as u64);
    }
    assert forall|pr: (u64, u64)| #[trigger] froms_pairs(bbs, perspective, ksq, side, piece, froms).contains(pr)
        == kind_pairs(bbs, perspective, ksq, side, piece).contains(pr) by {
        if pr.0 < 64 {
            if bit_set(b, pr.0) {
                lemma_set_bits_complete(b, 64, pr.0);
            }
            if froms.contains(pr.0 as usize) {
                let i = choose|i: int| 0 <= i < froms.len() && froms[i] == pr.0 as usize;
                assert(bit_set(b, froms[i] as u64));
            }
        }
    }
    assert(froms_pairs(bbs, perspective, ksq, side, piece, froms) =~= kind_pairs(bbs, perspective, ksq, side, piece));
    lemma_froms_distinct(bbs, perspective, ksq, side, piece, froms);
}

proof fn lemma_side_distinct(bbs: Seq<u64>, perspective: nat, ksq: nat, side: nat, n: nat)
    requires
        boards_consistent(bbs),
        side < 2,
        n <= 6,
        features_distinct(bbs, perspective, ksq, side_pairs(bbs, perspective, ksq, side, n)),
    ensures
        features_from(
            bbs,
            perspective,
            ksq,
            side_threats(bbs, perspective, ksq, side, n),
            side_pairs(bbs, perspective, ksq, side, n),
        ),
        side_threats(bbs, perspective, ksq, side, n).no_duplicates(),
    decreases n,
{
    let s = side_pairs(bbs, perspective, ksq, side, n);
    if n > 0 {
        let piece = (2 + n - 1) as nat;
        let s0 = side_pairs(bbs, perspective, ksq, side, (n - 1) as nat);
        let s1 = kind_pairs(bbs, perspective, ksq, side, piece);
        assert forall|pr: (u64, u64)| #[trigger] s.contains(pr) == (s0.contains(pr) || s1.contains(pr)) by {
            if pr.0 < 64 {
                lemma_owner_of(bbs, side, piece, pr.0);
            }
        }
        assert(s =~= s0 + s1);
        assert(s0.disjoint(s1)) by {
            assert forall|pr: (u64, u64)| s1.contains(pr) implies !s0.contains(pr) by {
                lemma_owner_of(bbs, side, piece, pr.0);
            }
        }
        lemma_distinct_subset(bbs, perspective, ksq, s0, s);
        lemma_distinct_subset(bbs, perspective, ksq, s1, s);
        lemma_side_distinct(bbs, perspective, ksq, side, (n - 1) as nat);
        lemma_kind_distinct(bbs, perspective, ksq, side, piece);
        lemma_concat_distinct(
            bbs,
            perspective,
            ksq,
            side_threats(bbs, perspective, ksq, side, (n - 1) as nat),
            piece_threats(bbs, perspective, ksq, side, piece, squares_of(bbs[side as int] & bbs[piece as int])),
            s0,
            s1,
        );
    }
}

/// No pawn stands on the first or the last rank.
pub open spec fn pawns_inside_boards(bbs: Seq<u64>) -> bool {
    forall|sq: u64| sq < 64 && #[trigger] bit_set(bbs[2], sq) ==> 8 <= sq < 56
}

proof fn lemma_pair_facts(bbs: Seq<u64>, perspective: nat, ksq: nat, pr: (u64, u64))
    requires
        bbs.len() == 8,
        board_covered(bbs),
        pawns_inside_boards(bbs),
        feature_pairs(bbs, perspective, ksq).contains(pr),
    ensures
        ({
            let c = color_on(bbs, pr.0);
            let q = piece_on(bbs, pr.0);
            let dc = color_on(bbs, pr.1);
            let d = piece_on(bbs, pr.1);
            &&& c < 2 && 2 <= q <= 7 && dc < 2 && 2 <= d <= 7 && pr.0 < 64 && pr.1 < 64
            &&& bit_set(target_set((q - 2) as nat, c, pr.0), pr.1)
            &&& (q == 2 ==> 8 <= pr.0 <= 55)
            &&& threat_feature(perspective, c, q, pr.0, pr.1, dc, d, ksq) is Some
            &&& threat_feature(perspective, c, q, pr.0, pr.1, dc, d, ksq)->0 < 491520
        }),
{
    let f = pr.0;
    let t = pr.1;
    let occ = bbs[0] | bbs[1];
    let c = color_on(bbs, f);
    let q = piece_on(bbs, f);
    lemma_owned_piece(bbs, f);
    lemma_bit_ops(bbs[c as int], bbs[q as int], f);
    lemma_bit_ops(bbs[0], bbs[1], t);
    lemma_bit_ops(occ, bbs[2], t);
    if q == 2 {
        lemma_bit_ops(pawn_captures(c as u64, f), occ, t);
        lemma_bit_ops(pawn_pushes(c as u64, f), bbs[2], t);
        lemma_bit_ops(pawn_captures(c as u64, f), pawn_pushes(c as u64, f), t);
        assert(bit_set(bbs[2], f));
    } else {
        lemma_bit_ops(piece_attack_set(q, f, occ), occ, t);
        lemma_attacks_within_targets(q, f, occ, t);
    }
    assert(owned(bbs, t));
    lemma_owned_piece(bbs, t);
    lemma_threat_feature_in_range(perspective, c, q, f, t, color_on(bbs, t), piece_on(bbs, t), ksq);
    lemma_piece_offset_bound(12);
}

/// On boards with one piece per occupied square and no pawn on the first or last rank, no two
/// threats that a perspective gives features to share one.
pub proof fn lemma_feature_pairs_distinct(bbs: Seq<u64>, perspective: nat, ksq: nat)
    requires
        bbs.len() == 8,
        board_covered(bbs),
        pawns_inside_boards(bbs),
    ensures
        features_distinct(bbs, perspective, ksq, feature_pairs(bbs, perspective, ksq)),
{
    let ps = feature_pairs(bbs, perspective, ksq);
    assert forall|pr1: (u64, u64), pr2: (u64, u64)|
        ps.contains(pr1) && ps.contains(pr2) && #[trigger] pair_feature(bbs, perspective, ksq, pr1)
            == #[trigger] pair_feature(bbs, perspective, ksq, pr2) implies pr1 == pr2 by {
        lemma_pair_facts(bbs, perspective, ksq, pr1);
        lemma_pair_facts(bbs, perspective, ksq, pr2);
        lemma_threat_feature_injective(
            perspective,
            ksq,
            color_on(bbs, pr1.0),
            piece_on(bbs, pr1.0),
            pr1.0,
            pr1.1,
            color_on(bbs, pr1.1),
            piece_on(bbs, pr1.1),
            color_on(bbs, pr2.0),
            piece_on(bbs, pr2.0),
            pr2.0,
            pr2.1,
            color_on(bbs, pr2.1),
            piece_on(bbs, pr2.1),
        );
    }
}

/// No feature is emitted twice: on boards with one piece per occupied square and no pawn on the
/// first or last rank, the threat features of a perspective are all different.
pub proof fn lemma_full_threats_distinct(bbs: Seq<u64>, perspective: nat, ksq: nat)
    requires
        bbs.len() == 8,
        board_covered(bbs),
        boards_consistent(bbs),
        pawns_inside_boards(bbs),
    ensures
        full_threats(bbs, perspective, ksq).no_duplicates(),
        features_from(bbs, perspective, ksq, full_threats(bbs, perspective, ksq), feature_pairs(bbs, perspective, ksq)),
{
    lemma_feature_pairs_distinct(bbs, perspective, ksq);
    let first = first_side(perspective);
    let second = (1 - first) as nat;
    let s0 = side_pairs(bbs, perspective, ksq, first, 6);
    let s1 = side_pairs(bbs, perspective, ksq, second, 6);
    let s = feature_pairs(bbs, perspective, ksq);
    assert forall|pr: (u64, u64)| #[trigger] s.contains(pr) == (s0.contains(pr) || s1.contains(pr)) by {
        if owned(bbs, pr.0) {
            lemma_owned_piece(bbs, pr.0);
        }
    }
    assert(s =~= s0 + s1);
    assert(s0.disjoint(s1));
    lemma_distinct_subset(bbs, perspective, ksq, s0, s);
    lemma_distinct_subset(bbs, perspective, ksq, s1, s);
    lemma_side_distinct(bbs, perspective, ksq, first, 6);
    lemma_side_distinct(bbs, perspective, ksq, second, 6);
    lemma_concat_distinct(
        bbs,
        perspective,
        ksq,
        side_threats(bbs, perspective, ksq, first, 6),
        side_threats(bbs, perspective, ksq, second, 6),
        s0,
        s1,
    );
}

/// A threat between two occupied squares that has a feature unless it is the second of a
/// mirrored pair.
pub open spec fn featured_threat(bbs: Seq<u64>, pr: (u64, u64)) -> bool {
    let attacker = piece_on(bbs, pr.0);
    &&& pr.0 < 64
    &&& pr.1 < 64
    &&& owned(bbs, pr.0)
    &&& targets(bbs, color_on(bbs, pr.0), attacker, pr.0, pr.1)
    &&& target_slot((attacker - 2) as nat, (piece_on(bbs, pr.1) - 2) as nat) >= 0
}

/// A threat between equal pieces that the threatened piece returns: between enemy pawns, or
/// between two other pieces of one type.
pub open spec fn mirrored_threat(bbs: Seq<u64>, pr: (u64, u64)) -> bool {
    let at = (piece_on(bbs, pr.0) - 2) as nat;
    let dt = (piece_on(bbs, pr.1) - 2) as nat;
    at == dt && (color_on(bbs, pr.0) != color_on(bbs, pr.1) || at != 0)
}

/// The threat `pr` has a feature exactly when it is not the second, in the order of the
/// squares as the perspective sees them, of a mirrored pair.
proof fn lemma_feature_shape(bbs: Seq<u64>, perspective: nat, ksq: nat, pr: (u64, u64))
    ensures
        feature_pairs(bbs, perspective, ksq).contains(pr) == (featured_threat(bbs, pr) && !(
        mirrored_threat(bbs, pr) && (pr.0 ^ orientation(perspective, ksq)) < (pr.1 ^ orientation(
            perspective,
            ksq,
        )))),
{
}

/// A mirrored threat is answered by the threat back, between two different squares.
proof fn lemma_mirror_back(bbs: Seq<u64>, pr: (u64, u64))
    requires
        bbs.len() == 8,
        board_covered(bbs),
        featured_threat(bbs, pr),
        mirrored_threat(bbs, pr),
    ensures
        featured_threat(bbs, (pr.1, pr.0)),
        mirrored_threat(bbs, (pr.1, pr.0)),
        pr.0 != pr.1,
{
    let f = pr.0;
    let t = pr.1;
    let occ = bbs[0] | bbs[1];
    let c = color_on(bbs, f);
    let q = piece_on(bbs, f);
    lemma_owned_piece(bbs, f);
    lemma_bit_ops(bbs[c as int], bbs[q as int], f);
    lemma_bit_ops(bbs[0], bbs[1], f);
    lemma_bit_ops(bbs[0], bbs[1], t);
    lemma_bit_ops(occ, bbs[2], t);
    assert(bit_set(occ, f));
    if q == 2 {
        lemma_bit_ops(pawn_captures(c as u64, f), occ, t);
        lemma_bit_ops(pawn_pushes(c as u64, f), bbs[2], t);
    } else {
        lemma_bit_ops(piece_attack_set(q, f, occ), occ, t);
    }
    assert(bit_set(occ | bbs[2], t));
    assert(owned(bbs, t));
    lemma_owned_piece(bbs, t);
    let c2 = color_on(bbs, t);
    assert(piece_on(bbs, t) == q);
    if q == 2 {
        assert(c2 == 1 - c);
        lemma_bit_ops(pawn_captures(c2 as u64, t), occ, f);
        lemma_bit_ops(pawn_pushes(c2 as u64, t), bbs[2], f);
        lemma_board_of(|x: u64| pawn_capture(c as u64, f, x), t);
        lemma_board_of(|x: u64| pawn_step(c as u64, f, x), t);
        lemma_board_of(|x: u64| pawn_capture(c2 as u64, t, x), f);
        lemma_board_of(|x: u64| pawn_step(c2 as u64, t, x), f);
        if bit_set(pawn_captures(c as u64, f) & occ, t) {
            assert(pawn_capture(c2 as u64, t, f));
        } else {
            assert(pawn_step(c2 as u64, t, f));
        }
    } else {
        lemma_bit_ops(piece_attack_set(q, t, occ), occ, f);
        lemma_attacks_symmetric(f, t, occ);
        if q == 3 {
            lemma_board_of(|x: u64| knight_jump(f, x), t);
            lemma_board_of(|x: u64| knight_jump(t, x), f);
        } else if q == 4 {
            lemma_board_of(|x: u64| bishop_sees(f, x, occ), t);
            lemma_board_of(|x: u64| bishop_sees(t, x, occ), f);
        } else if q == 5 {
            lemma_board_of(|x: u64| rook_sees(f, x, occ), t);
            lemma_board_of(|x: u64| rook_sees(t, x, occ), f);
        } else if q == 6 {
            lemma_board_of(|x: u64| rook_sees(f, x, occ) || bishop_sees(f, x, occ), t);
            lemma_board_of(|x: u64| rook_sees(t, x, occ) || bishop_sees(t, x, occ), f);
        } else {
            lemma_board_of(|x: u64| king_step(f, x), t);
            lemma_board_of(|x: u64| king_step(t, x), f);
        }
    }
}

/// Of two equal pieces threatening each other (enemy pawns, or two other pieces of one type),
/// every perspective gives exactly one of the two threats a feature.
pub proof fn lemma_mirrored_pair_once(bbs: Seq<u64>, perspective: nat, ksq: nat, pr: (u64, u64))
    requires
        bbs.len() == 8,
        board_covered(bbs),
        featured_threat(bbs, pr),
        mirrored_threat(bbs, pr),
    ensures
        feature_pairs(bbs, perspective, ksq).contains(pr) != feature_pairs(bbs, perspective, ksq).contains(
            (pr.1, pr.0),
        ),
{
    lemma_mirror_back(bbs, pr);
    lemma_feature_shape(bbs, perspective, ksq, pr);
    lemma_feature_shape(bbs, perspective, ksq, (pr.1, pr.0));
    lemma_xor_injective(pr.0, pr.1, orientation(perspective, ksq));
}

/// A pawn's threat against a bishop or a queen has no feature, and the bishop's or queen's
/// threat back against the pawn has one, from every perspective.
pub proof fn lemma_pawn_threat_covered(bbs: Seq<u64>, perspective: nat, ksq: nat, f: u64, t: u64)
    requires
        bbs.len() == 8,
        board_covered(bbs),
        boards_consistent(bbs),
        f < 64,
        t < 64,
        owned(bbs, f),
        piece_on(bbs, f) == 2,
        targets(bbs, color_on(bbs, f), 2, f, t),
        piece_on(bbs, t) == 4 || piece_on(bbs, t) == 6,
    ensures
        !feature_pairs(bbs, perspective, ksq).contains((f, t)),
        feature_pairs(bbs, perspective, ksq).contains((t, f)),
{
    let occ = bbs[0] | bbs[1];
    let c = color_on(bbs, f);
    lemma_feature_shape(bbs, perspective, ksq, (f, t));
    lemma_feature_shape(bbs, perspective, ksq, (t, f));
    lemma_owned_piece(bbs, f);
    lemma_bit_ops(bbs[c as int], bbs[2], f);
    lemma_bit_ops(bbs[0], bbs[1], f);
    lemma_bit_ops(bbs[0], bbs[1], t);
    lemma_bit_ops(occ, bbs[2], t);
    lemma_bit_ops(pawn_captures(c as u64, f), occ, t);
    lemma_bit_ops(pawn_pushes(c as u64, f), bbs[2], t);
    assert(owned(bbs, t));
    lemma_owned_piece(bbs, t);
    let ct = color_on(bbs, t);
    let qt = piece_on(bbs, t);
    lemma_bit_ops(bbs[ct as int], bbs[qt as int], t);
    if bit_set(bbs[2], t) {
        lemma_bit_ops(bbs[ct as int], bbs[2], t);
        lemma_owner_of(bbs, ct, 2, t);
    }
    assert(bit_set(pawn_captures(c as u64, f), t));
    lemma_board_of(|x: u64| pawn_capture(c as u64, f, x), t);
    lemma_pawn_capture_diagonal(c as u64, f, t, occ);
    lemma_bit_ops(piece_attack_set(qt, t, occ), occ, f);
    if qt == 4 {
        lemma_board_of(|x: u64| bishop_sees(t, x, occ), f);
    } else {
        lemma_board_of(|x: u64| rook_sees(t, x, occ) || bishop_sees(t, x, occ), f);
    }
}

/// A bishop's or a rook's threat against a queen has no feature, and the queen's threat back
/// has one, from every perspective.
pub proof fn lemma_queen_threat_covered(bbs: Seq<u64>, perspective: nat, ksq: nat, f: u64, t: u64)
    requires
        bbs.len() == 8,
        board_covered(bbs),
        f < 64,
        t < 64,
        owned(bbs, f),
        piece_on(bbs, f) == 4 || piece_on(bbs, f) == 5,
        targets(bbs, color_on(bbs, f), piece_on(bbs, f), f, t),
        piece_on(bbs, t) == 6,
    ensures
        !feature_pairs(bbs, perspective, ksq).contains((f, t)),
        feature_pairs(bbs, perspective, ksq).contains((t, f)),
{
    let occ = bbs[0] | bbs[1];
    let c = color_on(bbs, f);
    let q = piece_on(bbs, f);
    lemma_feature_shape(bbs, perspective, ksq, (f, t));
    lemma_feature_shape(bbs, perspective, ksq, (t, f));
    lemma_owned_piece(bbs, f);
    lemma_bit_ops(bbs[c as int], bbs[q as int], f);
    lemma_bit_ops(bbs[0], bbs[1], f);
    lemma_bit_ops(bbs[0], bbs[1], t);
    lemma_bit_ops(occ, bbs[2], t);
    lemma_bit_ops(piece_attack_set(q, f, occ), occ, t);
    assert(owned(bbs, t));
    lemma_owned_piece(bbs, t);
    lemma_attacks_symmetric(f, t, occ);
    lemma_bit_ops(piece_attack_set(6, t, occ), occ, f);
    lemma_board_of(|x: u64| rook_sees(t, x, occ) || bishop_sees(t, x, occ), f);
    if q == 4 {
        lemma_board_of(|x: u64| bishop_sees(f, x, occ), t);
    } else {
        lemma_board_of(|x: u64| rook_sees(f, x, occ), t);
    }
}

/// The threats that are not mirrored, and those that are, both independent of the perspective.
spec fn plain_threats(bbs: Seq<u64>) -> Set<(u64, u64)> {
    Set::new(|pr: (u64, u64)| featured_threat(bbs, pr) && !mirrored_threat(bbs, pr))
}

spec fn mirrored_threats(bbs: Seq<u64>) -> Set<(u64, u64)> {
    Set::new(|pr: (u64, u64)| featured_threat(bbs, pr) && mirrored_threat(bbs, pr))
}

spec fn mirrored_kept(bbs: Seq<u64>, o: u64, up: bool) -> Set<(u64, u64)> {
    Set::new(
        |pr: (u64, u64)|
            featured_threat(bbs, pr) && mirrored_threat(bbs, pr) && ((pr.0 ^ o) < (pr.1 ^ o)) == up,
    )
}

proof fn lemma_xor_injective(a: u64, b: u64, o: u64)
    by (bit_vector)
    requires
        a != b,
    ensures
        (a ^ o) != (b ^ o),
{
}

/// Every perspective counts the plain threats and half of the mirrored ones.
proof fn lemma_feature_pairs_count(bbs: Seq<u64>, perspective: nat, ksq: nat)
    requires
        bbs.len() == 8,
        board_covered(bbs),
        boards_consistent(bbs),
    ensures
        plain_threats(bbs).finite(),
        mirrored_threats(bbs).finite(),
        2 * feature_pairs(bbs, perspective, ksq).len() == 2 * plain_threats(bbs).len()
            + mirrored_threats(bbs).len(),
{
    let o = orientation(perspective, ksq);
    let k = feature_pairs(bbs, perspective, ksq);
    let a = plain_threats(bbs);
    let m = mirrored_threats(bbs);
    let hi = mirrored_kept(bbs, o, false);
    let lo = mirrored_kept(bbs, o, true);
    lemma_full_count(bbs, perspective, ksq);
    assert forall|pr: (u64, u64)| #[trigger] k.contains(pr) == (a.contains(pr) || hi.contains(pr)) by {
        lemma_feature_shape(bbs, perspective, ksq, pr);
    }
    assert(k =~= a + hi);
    assert(a.subset_of(k));
    assert(hi.subset_of(k));
    vstd::set_lib::lemma_set_subset_finite(k, a);
    vstd::set_lib::lemma_set_subset_finite(k, hi);
    assert(a.disjoint(hi));
    vstd::set_lib::lemma_set_disjoint_lens(a, hi);
    let swap = |pr: (u64, u64)| (pr.1, pr.0);
    assert forall|pr: (u64, u64)| #[trigger] hi.map(swap).contains(pr) == lo.contains(pr) by {
        if lo.contains(pr) {
            lemma_mirror_back(bbs, pr);
            lemma_xor_injective(pr.0, pr.1, o);
            assert(hi.contains(swap(pr)));
            assert(swap(swap(pr)) == pr);
        }
        if hi.map(swap).contains(pr) {
            let x = choose|x: (u64, u64)| hi.contains(x) && pr == swap(x);
            lemma_mirror_back(bbs, x);
            lemma_xor_injective(x.0, x.1, o);
        }
    }
    assert(hi.map(swap) =~= lo);
    vstd::set_lib::lemma_map_size(hi, lo, swap);
    assert(m =~= lo + hi);
    assert(lo.disjoint(hi));
    vstd::set_lib::lemma_set_disjoint_lens(lo, hi);
}

/// Both sides see the same number of threats: on boards where every occupied square holds one
/// piece, the threat features of any two perspectives, with any king squares, are equally
/// many.
pub proof fn lemma_threat_counts_agree(
    bbs: Seq<u64>,
    perspective1: nat,
    ksq1: nat,
    perspective2: nat,
    ksq2: nat,
)
    requires
        bbs.len() == 8,
        board_covered(bbs),
        boards_consistent(bbs),
    ensures
        full_threats(bbs, perspective1, ksq1).len() == full_threats(bbs, perspective2, ksq2).len(),
{
    lemma_full_count(bbs, perspective1, ksq1);
    lemma_full_count(bbs, perspective2, ksq2);
    lemma_feature_pairs_count(bbs, perspective1, ksq1);
    lemma_feature_pairs_count(bbs, perspective2, ksq2);
}

/// Whether the piece code `pc` sets bitboard `b`: its colour's (0 white, 1 black) and its piece
/// type's (2 pawn to 7 king).
pub open spec fn code_marks(pc: u8, b: int) -> bool {
    b == (if pc & 8u8 > 0 { 1int } else { 0int }) || b == 2 + (pc & 7u8) as int
}

proof fn lemma_piece_boards_bit(pieces: Seq<(u8, u8)>, n: nat, b: int, sq: u64)
    requires
        n <= pieces.len(),
        pieces_valid(pieces),
        0 <= b < 8,
        sq < 64,
    ensures
        piece_boards(pieces, n).len() == 8,
        bit_set(piece_boards(pieces, n)[b], sq) <==> exists|i: int|
            0 <= i < n && (#[trigger] pieces[i]).1 as u64 == sq && code_marks(pieces[i].0, b),
    decreases n,
{
    if n == 0 {
        lemma_bit_ops(0u64, 0u64, sq);
    } else {
        lemma_piece_boards_bit(pieces, (n - 1) as nat, b, sq);
        let prev = piece_boards(pieces, (n - 1) as nat);
        let (pc, s) = pieces[n - 1];
        assert(pc & 7u8 < 6 && s < 64);
        let c: int = if pc & 8u8 > 0 { 1 } else { 0 };
        let pt: int = 2 + (pc & 7u8) as int;
        let bit = 1u64 << (s as u64);
        lemma_bit_ops(prev[b], s as u64, sq);
        lemma_bit_ops(prev[b], bit, sq);
        let cur = piece_boards(pieces, n);
        if b == c || b == pt {
            assert(cur[b] == prev[b] | bit);
        } else {
            assert(cur[b] == prev[b]);
        }
        if bit_set(cur[b], sq) {
            if !bit_set(prev[b], sq) {
                assert(pieces[n - 1].1 as u64 == sq && code_marks(pieces[n - 1].0, b));
            }
        }
        if exists|i: int| 0 <= i < n && (#[trigger] pieces[i]).1 as u64 == sq && code_marks(pieces[i].0, b) {
            let i = choose|i: int| 0 <= i < n && (#[trigger] pieces[i]).1 as u64 == sq && code_marks(pieces[i].0, b);
            if i < n - 1 {
                assert(bit_set(prev[b], sq));
            }
        }
    }
}

/// Every square of a colour's bitboard holds a piece of that colour.
pub open spec fn colors_exact(bbs: Seq<u64>) -> bool {
    forall|sq: u64, s: nat|
        sq < 64 && s < 2 && #[trigger] bit_set(bbs[s as int], sq) ==> owned(bbs, sq) && color_on(bbs, sq)
            == s
}

/// The bitboards of pieces on distinct squares hold one piece per square.
pub proof fn lemma_piece_boards_consistent(pieces: Seq<(u8, u8)>)
    requires
        pieces_valid(pieces),
        forall|i: int, j: int|
            0 <= i < pieces.len() && 0 <= j < pieces.len() && i != j ==> (#[trigger] pieces[i]).1
                != (#[trigger] pieces[j]).1,
    ensures
        boards_consistent(piece_boards(pieces, pieces.len())),
        colors_exact(piece_boards(pieces, pieces.len())),
{
    let n = pieces.len();
    let bbs = piece_boards(pieces, n);
    assert forall|sq: u64, j1: nat, j2: nat|
        sq < 64 && j1 < 12 && j2 < 12 && #[trigger] bit_set(bbs[pair_side(j1) as int] & bbs[pair_piece(j1) as int], sq)
            && #[trigger] bit_set(bbs[pair_side(j2) as int] & bbs[pair_piece(j2) as int], sq) implies j1 == j2 by {
        lemma_bit_ops(bbs[pair_side(j1) as int], bbs[pair_piece(j1) as int], sq);
        lemma_bit_ops(bbs[pair_side(j2) as int], bbs[pair_piece(j2) as int], sq);
        lemma_piece_boards_bit(pieces, n, pair_side(j1) as int, sq);
        lemma_piece_boards_bit(pieces, n, pair_piece(j1) as int, sq);
        lemma_piece_boards_bit(pieces, n, pair_side(j2) as int, sq);
        lemma_piece_boards_bit(pieces, n, pair_piece(j2) as int, sq);
        let a1 = choose|i: int| 0 <= i < n && (#[trigger] pieces[i]).1 as u64 == sq && code_marks(pieces[i].0, pair_side(j1) as int);
        let b1 = choose|i: int| 0 <= i < n && (#[trigger] pieces[i]).1 as u64 == sq && code_marks(pieces[i].0, pair_piece(j1) as int);
        let a2 = choose|i: int| 0 <= i < n && (#[trigger] pieces[i]).1 as u64 == sq && code_marks(pieces[i].0, pair_side(j2) as int);
        let b2 = choose|i: int| 0 <= i < n && (#[trigger] pieces[i]).1 as u64 == sq && code_marks(pieces[i].0, pair_piece(j2) as int);
        assert(a1 == b1 && a1 == a2 && a1 == b2);
    }
    assert forall|sq: u64, sd: nat| sq < 64 && sd < 2 && #[trigger] bit_set(bbs[sd as int], sq) implies owned(bbs, sq)
        && color_on(bbs, sq) == sd by {
        lemma_piece_boards_bit(pieces, n, sd as int, sq);
        let i = choose|i: int| 0 <= i < n && (#[trigger] pieces[i]).1 as u64 == sq && code_marks(pieces[i].0, sd as int);
        let q = 2 + (pieces[i].0 & 7u8) as int;
        assert(pieces[i].0 & 7u8 < 6);
        lemma_piece_boards_bit(pieces, n, q, sq);
        assert(code_marks(pieces[i].0, q));
        lemma_bit_ops(bbs[sd as int], bbs[q], sq);
        lemma_owner_of(bbs, sd, q as nat, sq);
    }
}

/// The bitboards of a readable position hold one piece per occupied square.
pub proof fn lemma_position_boards_consistent(pos: PackedBoard)
    requires
        board_well_formed(pos),
    ensures
        position_boards(pos).len() == 8,
        board_covered(position_boards(pos)),
        boards_consistent(position_boards(pos)),
        colors_exact(position_boards(pos)),
{
    let pieces = pieces_of(pos.occ, pos.pcs@);
    crate::bitboard::lemma_set_bits_len(pos.occ, 64);
    assert forall|i: int| 0 <= i < pieces.len() implies (#[trigger] pieces[i]).0 & 7u8 < 6 && pieces[i].1 < 64 by {
        assert(squares_of(pos.occ)[i] < 64);
    }
    assert forall|i: int, j: int| 0 <= i < pieces.len() && 0 <= j < pieces.len() && i != j implies (#[trigger] pieces[i]).1
        != (#[trigger] pieces[j]).1 by {
        if i < j {
            assert(squares_of(pos.occ)[i] < squares_of(pos.occ)[j]);
        } else {
            assert(squares_of(pos.occ)[j] < squares_of(pos.occ)[i]);
        }
        assert(squares_of(pos.occ)[i] < 64 && squares_of(pos.occ)[j] < 64);
    }
    lemma_piece_boards_covered(pieces);
    lemma_piece_boards_bit(pieces, pieces.len(), 0, 0);
    lemma_piece_boards_consistent(pieces);
}

/// Both sides of a readable position see equally many threats.
pub proof fn lemma_position_threat_counts_agree(pos: PackedBoard)
    requires
        board_well_formed(pos),
    ensures
        full_threats(position_boards(pos), 0, pos.ksq as nat).len() == full_threats(
            position_boards(pos),
            1,
            pos.opp_ksq as nat,
        ).len(),
{
    lemma_position_boards_consistent(pos);
    lemma_threat_counts_agree(position_boards(pos), 0, pos.ksq as nat, 1, pos.opp_ksq as nat);
}

/// On a position that chess allows, neither side's threat features hold one feature twice.
pub proof fn lemma_position_threats_distinct(pos: PackedBoard)
    requires
        board_well_formed(pos),
        pawns_inside(pos),
    ensures
        full_threats(position_boards(pos), 0, pos.ksq as nat).no_duplicates(),
        full_threats(position_boards(pos), 1, pos.opp_ksq as nat).no_duplicates(),
{
    lemma_position_boards_consistent(pos);
    crate::threat_inputs::lemma_legal_position_in_range(pos);
    lemma_full_threats_distinct(position_boards(pos), 0, pos.ksq as nat);
    lemma_full_threats_distinct(position_boards(pos), 1, pos.opp_ksq as nat);
}

} // verus!
