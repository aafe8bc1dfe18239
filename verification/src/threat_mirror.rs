//! Mirror symmetries of the threat features: mirroring the files of the board together with
//! the king gives the same features, and black's view of a board gives the features of white's
//! view of the board turned round with the colours swapped.
use vstd::prelude::*;
use crate::bitboard::{bit_set, lemma_bit_ops};
use crate::full_threats::{
    color_on, piece_on, piece_attack_set, full_threats, board_covered, lemma_threat_feature_mirrored,
};
use crate::geometry::{
    pawn_captures, pawn_pushes, pawn_capture, pawn_step, lemma_board_of, knight_jump, king_step,
    rook_sees, bishop_sees, lemma_mirror_coords, lemma_steps_mirrored, lemma_slides_mirrored,
};
use crate::threat_balance::{
    feature_pairs, pair_feature, feature_in, targets, owned, boards_consistent, pawns_inside_boards,
    lemma_owned_piece, lemma_full_count, lemma_full_threats_distinct, lemma_feature_pairs_distinct,
};
use crate::bucket_balance::{
    boards_mirrored, boards_sound, mirror_color, lemma_mirrored_bit, lemma_mirrored_sound,
};

verus! {

/// The features of the threats that have one, seen from `perspective` with its king on `ksq`.
pub open spec fn threat_feature_set(bbs: Seq<u64>, perspective: nat, ksq: nat) -> Set<usize> {
    feature_pairs(bbs, perspective, ksq).map(|pr: (u64, u64)| pair_feature(bbs, perspective, ksq, pr))
}

/// A mirror moves the threats of a piece with it, for the piece of the mirrored colour.
proof fn lemma_targets_mirrored(bbs: Seq<u64>, bbs2: Seq<u64>, o: u64, swap: bool, c: nat, q: nat, f: u64, t: u64)
    requires
        boards_mirrored(bbs, bbs2, o, swap),
        (o == 7 && !swap) || (o == 56 && swap),
        c < 2,
        2 <= q <= 7,
        f < 64,
        t < 64,
    ensures
        targets(bbs2, mirror_color(c, swap), q, f ^ o, t ^ o) == targets(bbs, c, q, f, t),
{
    let f2 = f ^ o;
    let t2 = t ^ o;
    let c2 = mirror_color(c, swap);
    lemma_mirror_coords(f, o);
    lemma_mirror_coords(t, o);
    let occ = bbs[0] | bbs[1];
    let occ2 = bbs2[0] | bbs2[1];
    assert forall|u: u64| u < 64 implies #[trigger] bit_set(occ2, u ^ o) == bit_set(occ, u) by {
        lemma_mirrored_bit(bbs, bbs2, o, swap, 0, u);
        lemma_mirrored_bit(bbs, bbs2, o, swap, 1, u);
        lemma_bit_ops(bbs2[0], bbs2[1], u ^ o);
        lemma_bit_ops(bbs[0], bbs[1], u);
    }
    assert(bit_set(occ2, t2) == bit_set(occ, t));
    lemma_mirrored_bit(bbs, bbs2, o, swap, 2, t);
    lemma_steps_mirrored(c as u64, f, t, o);
    lemma_slides_mirrored(f, t, occ, occ2, o);
    assert(c2 as u64 == if o >= 56 { (1 - c) as u64 } else { c as u64 });
    if q == 2 {
        lemma_bit_ops(pawn_captures(c2 as u64, f2), occ2, t2);
        lemma_bit_ops(pawn_pushes(c2 as u64, f2), bbs2[2], t2);
        lemma_bit_ops(pawn_captures(c as u64, f), occ, t);
        lemma_bit_ops(pawn_pushes(c as u64, f), bbs[2], t);
        lemma_board_of(|x: u64| pawn_capture(c as u64, f, x), t);
        lemma_board_of(|x: u64| pawn_capture(c2 as u64, f2, x), t2);
        lemma_board_of(|x: u64| pawn_step(c as u64, f, x), t);
        lemma_board_of(|x: u64| pawn_step(c2 as u64, f2, x), t2);
    } else {
        lemma_bit_ops(piece_attack_set(q, f2, occ2), occ2, t2);
        lemma_bit_ops(piece_attack_set(q, f, occ), occ, t);
        if q == 3 {
            lemma_board_of(|x: u64| knight_jump(f, x), t);
            lemma_board_of(|x: u64| knight_jump(f2, x), t2);
        } else if q == 4 {
            lemma_board_of(|x: u64| bishop_sees(f, x, occ), t);
            lemma_board_of(|x: u64| bishop_sees(f2, x, occ2), t2);
        } else if q == 5 {
            lemma_board_of(|x: u64| rook_sees(f, x, occ), t);
            lemma_board_of(|x: u64| rook_sees(f2, x, occ2), t2);
        } else if q == 6 {
            lemma_board_of(|x: u64| rook_sees(f, x, occ) || bishop_sees(f, x, occ), t);
            lemma_board_of(|x: u64| rook_sees(f2, x, occ2) || bishop_sees(f2, x, occ2), t2);
        } else {
            lemma_board_of(|x: u64| king_step(f, x), t);
            lemma_board_of(|x: u64| king_step(f2, x), t2);
        }
    }
}

/// A threatened square holds a piece.
proof fn lemma_target_owned(bbs: Seq<u64>, c: nat, q: nat, f: u64, t: u64)
    requires
        bbs.len() == 8,
        board_covered(bbs),
        t < 64,
        targets(bbs, c, q, f, t),
    ensures
        owned(bbs, t),
{
    let occ = bbs[0] | bbs[1];
    lemma_bit_ops(pawn_captures(c as u64, f), occ, t);
    lemma_bit_ops(pawn_pushes(c as u64, f), bbs[2], t);
    lemma_bit_ops(piece_attack_set(q, f, occ), occ, t);
    lemma_bit_ops(bbs[0], bbs[1], t);
    lemma_bit_ops(occ, bbs[2], t);
    assert(bit_set(bbs[0] | bbs[1] | bbs[2], t));
}

/// A mirror keeps which threats have a feature, and their features, when the perspective and
/// its king follow it.
proof fn lemma_pair_mirrored(
    bbs: Seq<u64>,
    bbs2: Seq<u64>,
    o: u64,
    swap: bool,
    perspective: nat,
    ksq: u64,
    perspective2: nat,
    ksq2: nat,
    pr: (u64, u64),
)
    requires
        boards_sound(bbs),
        boards_mirrored(bbs, bbs2, o, swap),
        (o == 7 && !swap && perspective2 == perspective && ksq2 == (ksq ^ 7) as nat) || (o == 56 && swap
            && perspective == 1 && perspective2 == 0 && ksq2 == (ksq ^ 56) as nat),
        ksq < 64,
        pr.0 < 64,
        pr.1 < 64,
    ensures
        feature_pairs(bbs2, perspective2, ksq2).contains((pr.0 ^ o, pr.1 ^ o)) == feature_pairs(
            bbs,
            perspective,
            ksq as nat,
        ).contains(pr),
        feature_pairs(bbs, perspective, ksq as nat).contains(pr) ==> pair_feature(
            bbs2,
            perspective2,
            ksq2,
            (pr.0 ^ o, pr.1 ^ o),
        ) == pair_feature(bbs, perspective, ksq as nat, pr),
{
    lemma_mirrored_sound(bbs, bbs2, o, swap);
    let f = pr.0;
    let t = pr.1;
    let f2 = f ^ o;
    let t2 = t ^ o;
    lemma_mirror_coords(f, o);
    lemma_mirror_coords(t, o);
    assert(owned(bbs2, f2) == owned(bbs, f));
    if owned(bbs, f) {
        lemma_owned_piece(bbs, f);
        let c = color_on(bbs, f);
        let q = piece_on(bbs, f);
        assert(color_on(bbs2, f2) == mirror_color(c, swap) && piece_on(bbs2, f2) == q);
        lemma_targets_mirrored(bbs, bbs2, o, swap, c, q, f, t);
        if targets(bbs, c, q, f, t) {
            lemma_target_owned(bbs, c, q, f, t);
            lemma_owned_piece(bbs, t);
            let dc = color_on(bbs, t);
            let d = piece_on(bbs, t);
            assert(color_on(bbs2, t2) == mirror_color(dc, swap) && piece_on(bbs2, t2) == d);
            lemma_threat_feature_mirrored(perspective, c, q, f, t, dc, d, ksq);
        }
    }
}

/// The threat features of a perspective, on boards with one piece per occupied square and no
/// pawn on the first or last rank, are distinct and are the features of its featured threats.
proof fn lemma_threats_as_set(bbs: Seq<u64>, perspective: nat, ksq: nat)
    requires
        bbs.len() == 8,
        board_covered(bbs),
        boards_consistent(bbs),
        pawns_inside_boards(bbs),
    ensures
        full_threats(bbs, perspective, ksq).no_duplicates(),
        full_threats(bbs, perspective, ksq).to_set() == threat_feature_set(bbs, perspective, ksq),
{
    let xs = full_threats(bbs, perspective, ksq);
    let ps = feature_pairs(bbs, perspective, ksq);
    let pf = |pr: (u64, u64)| pair_feature(bbs, perspective, ksq, pr);
    let img = threat_feature_set(bbs, perspective, ksq);
    lemma_full_threats_distinct(bbs, perspective, ksq);
    lemma_full_count(bbs, perspective, ksq);
    lemma_feature_pairs_distinct(bbs, perspective, ksq);
    assert(vstd::relations::injective_on(pf, ps));
    vstd::set_lib::lemma_map_size(ps, img, pf);
    xs.unique_seq_to_set();
    vstd::seq_lib::seq_to_set_is_finite(xs);
    assert forall|x: usize| xs.to_set().contains(x) implies img.contains(x) by {
        let i = choose|i: int| 0 <= i < xs.len() && xs[i] == x;
        assert(feature_in(bbs, perspective, ksq, xs[i], ps));
        let pr = choose|pr: (u64, u64)| #[trigger] ps.contains(pr) && xs[i] == pair_feature(bbs, perspective, ksq, pr);
        assert(pf(pr) == x);
    }
    vstd::set_lib::lemma_subset_equality(xs.to_set(), img);
}

/// Two sequences without repeats that hold the same values hold each as often.
proof fn lemma_same_multiset(a: Seq<usize>, b: Seq<usize>)
    requires
        a.no_duplicates(),
        b.no_duplicates(),
        a.to_set() == b.to_set(),
    ensures
        a.to_multiset() == b.to_multiset(),
{
    broadcast use vstd::seq_lib::to_multiset_contains;
    a.lemma_multiset_has_no_duplicates();
    b.lemma_multiset_has_no_duplicates();
    assert forall|x: usize| a.to_multiset().count(x) == b.to_multiset().count(x) by {
        assert(a.to_set().contains(x) == a.contains(x));
        assert(b.to_set().contains(x) == b.contains(x));
    }
    assert(a.to_multiset() =~= b.to_multiset());
}

/// The boards `bbs2` mirrored as the perspective requires are sound and keep the pawns off the
/// first and last ranks.
proof fn lemma_mirrored_inside(bbs: Seq<u64>, bbs2: Seq<u64>, o: u64, swap: bool)
    requires
        boards_sound(bbs),
        pawns_inside_boards(bbs),
        boards_mirrored(bbs, bbs2, o, swap),
        (o == 7 && !swap) || (o == 56 && swap),
    ensures
        boards_sound(bbs2),
        pawns_inside_boards(bbs2),
{
    lemma_mirrored_sound(bbs, bbs2, o, swap);
    assert forall|sq: u64| sq < 64 && #[trigger] bit_set(bbs2[2], sq) implies 8 <= sq < 56 by {
        lemma_mirror_coords(sq, o);
        lemma_mirrored_bit(bbs, bbs2, o, swap, 2, sq ^ o);
        assert(bit_set(bbs[2], sq ^ o));
    }
}

/// A mirror that the perspective follows gives the same threat features, each as often.
proof fn lemma_full_threats_mirrored(
    bbs: Seq<u64>,
    bbs2: Seq<u64>,
    o: u64,
    swap: bool,
    perspective: nat,
    ksq: u64,
    perspective2: nat,
    ksq2: nat,
)
    requires
        boards_sound(bbs),
        pawns_inside_boards(bbs),
        boards_mirrored(bbs, bbs2, o, swap),
        (o == 7 && !swap && perspective2 == perspective && ksq2 == (ksq ^ 7) as nat) || (o == 56 && swap
            && perspective == 1 && perspective2 == 0 && ksq2 == (ksq ^ 56) as nat),
        ksq < 64,
    ensures
        full_threats(bbs2, perspective2, ksq2).to_multiset() == full_threats(bbs, perspective, ksq as nat).to_multiset(),
{
    lemma_mirrored_inside(bbs, bbs2, o, swap);
    lemma_threats_as_set(bbs, perspective, ksq as nat);
    lemma_threats_as_set(bbs2, perspective2, ksq2);
    let ps = feature_pairs(bbs, perspective, ksq as nat);
    let ps2 = feature_pairs(bbs2, perspective2, ksq2);
    let img = threat_feature_set(bbs, perspective, ksq as nat);
    let img2 = threat_feature_set(bbs2, perspective2, ksq2);
    assert forall|x: usize| #[trigger] img.contains(x) == img2.contains(x) by {
        if img.contains(x) {
            let pr = choose|pr: (u64, u64)| ps.contains(pr) && pair_feature(bbs, perspective, ksq as nat, pr) == x;
            lemma_pair_mirrored(bbs, bbs2, o, swap, perspective, ksq, perspective2, ksq2, pr);
            let pr2 = (pr.0 ^ o, pr.1 ^ o);
            assert(ps2.contains(pr2));
            assert(pair_feature(bbs2, perspective2, ksq2, pr2) == x);
        }
        if img2.contains(x) {
            let pr2 = choose|pr: (u64, u64)| ps2.contains(pr) && pair_feature(bbs2, perspective2, ksq2, pr) == x;
            lemma_mirror_coords(pr2.0, o);
            lemma_mirror_coords(pr2.1, o);
            let pr = (pr2.0 ^ o, pr2.1 ^ o);
            lemma_pair_mirrored(bbs, bbs2, o, swap, perspective, ksq, perspective2, ksq2, pr);
            assert((pr.0 ^ o, pr.1 ^ o) == pr2);
            assert(ps.contains(pr));
            assert(pair_feature(bbs, perspective, ksq as nat, pr) == x);
        }
    }
    assert(img =~= img2);
    lemma_same_multiset(full_threats(bbs2, perspective2, ksq2), full_threats(bbs, perspective, ksq as nat));
}

/// Mirroring the files of the board and of the king changes no threat feature: on boards with
/// one piece per occupied square and no pawn on the first or last rank, the board `bbs2` with
/// every square `sq` of `bbs` moved to `sq ^ 7` gives, for the king on `ksq ^ 7`, the threat
/// features of `bbs` for the king on `ksq`, each as often.
pub proof fn lemma_full_threats_file_mirror(bbs: Seq<u64>, bbs2: Seq<u64>, perspective: nat, ksq: u64)
    requires
        boards_sound(bbs),
        pawns_inside_boards(bbs),
        boards_mirrored(bbs, bbs2, 7, false),
        ksq < 64,
    ensures
        full_threats(bbs2, perspective, (ksq ^ 7) as nat).to_multiset() == full_threats(
            bbs,
            perspective,
            ksq as nat,
        ).to_multiset(),
{
    lemma_full_threats_mirrored(bbs, bbs2, 7, false, perspective, ksq, perspective, (ksq ^ 7) as nat);
}

/// Black's view is white's view of the board turned round: on boards with one piece per
/// occupied square and no pawn on the first or last rank, the board `bbs2` with the colours
/// swapped and every square `sq` of `bbs` moved to `sq ^ 56` (its ranks mirrored, as byte
/// swapping each bitboard does) gives white, with its king on `ksq ^ 56`, the threat features
/// that `bbs` gives black with its king on `ksq`, each as often.
pub proof fn lemma_full_threats_colour_mirror(bbs: Seq<u64>, bbs2: Seq<u64>, ksq: u64)
    requires
        boards_sound(bbs),
        pawns_inside_boards(bbs),
        boards_mirrored(bbs, bbs2, 56, true),
        ksq < 64,
    ensures
        full_threats(bbs2, 0, (ksq ^ 56) as nat).to_multiset() == full_threats(bbs, 1, ksq as nat).to_multiset(),
{
    lemma_full_threats_mirrored(bbs, bbs2, 56, true, 1, ksq, 0, (ksq ^ 56) as nat);
}

} // verus!
