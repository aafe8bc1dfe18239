//! Threat inputs numbered per attacking piece type, both colours' threats mapped into one half
//! each, with king-bucketed piece-square inputs.
use vstd::prelude::*;
use crate::bitboard::{
    bit_set, count_below, count_ones, lemma_popcount_masked, lemma_count_below_mono, popcount,
};
use crate::bitboard::{squares, squares_of, lemma_set_bits_len, lemma_set_bits_complete, lemma_bit_ops, lemma_bit_ext};
use crate::full_threats::{
    pseudo_attacks, pseudo_attack_set, square_offset, lemma_square_offset_bound, last_owner,
    pair_side, pair_piece, piece_on, color_on, owners, piece_attack_set, lemma_owner_valid,
};
use crate::geometry::{pawn_captures, board_of, lemma_is_board_of, lemma_board_of, lemma_mirror_coords};
use crate::bitboard::{byte_swapped, swap_bytes};
use crate::board::{PackedBoard, pieces_of, board_well_formed, pawns_inside};
use crate::full_threats::{
    psq_index, factorised_index, psq_pairs, threat_pairs, piece_boards, psq_features,
    push_threat_pairs, bitboards, pieces_valid, board_covered, lemma_attacks_within_targets,
    lemma_below_next_square, claimed, lemma_claimed_owned,
    lemma_piece_boards_covered,
};
use crate::geometry::pawn_capture;
use vstd::std_specs::bits::u64_trailing_zeros;

pub use crate::attacks::{Side, Piece, Attacks};

verus! {

/// Pawn threats per target kind: 14 per rank (two captures per file, minus the edges) on the
/// six ranks pawns stand on.
pub const PAWN_INDICES: usize = 84;

/// Features of the squares below `n` for a non-pawn piece type (knight 1 to king 5): its
/// empty-board attacks, counted.
pub open spec fn attack_index(pt: nat, n: nat) -> nat {
    square_offset(pt, 0, n)
}

pub open spec fn offset_knight() -> nat {
    6 * 84
}

pub open spec fn offset_bishop() -> nat {
    offset_knight() + 12 * attack_index(1, 64)
}

pub open spec fn offset_rook() -> nat {
    offset_bishop() + 10 * attack_index(2, 64)
}

pub open spec fn offset_queen() -> nat {
    offset_rook() + 10 * attack_index(3, 64)
}

pub open spec fn offset_king() -> nat {
    offset_queen() + 12 * attack_index(4, 64)
}

/// The number of threat features of one side.
pub open spec fn offset_end() -> nat {
    offset_king() + 8 * attack_index(5, 64)
}

/// The first feature of each square (entries 0 to 63) and the total (entry 64), per piece.
pub struct ThreatIndices {
    pub knight: Vec<usize>,
    pub bishop: Vec<usize>,
    pub rook: Vec<usize>,
    pub queen: Vec<usize>,
    pub king: Vec<usize>,
}

pub open spec fn index_table_ok(v: Seq<usize>, pt: nat) -> bool {
    &&& v.len() == 65
    &&& forall|i: int| 0 <= i <= 64 ==> #[trigger] v[i] == attack_index(pt, i as nat)
}

impl ThreatIndices {
    pub open spec fn wf(&self) -> bool {
        &&& index_table_ok(self.knight@, 1)
        &&& index_table_ok(self.bishop@, 2)
        &&& index_table_ok(self.rook@, 3)
        &&& index_table_ok(self.queen@, 4)
        &&& index_table_ok(self.king@, 5)
    }
}

/// Running totals of the attack counts of a piece type over the squares.
fn index_table(pt: usize) -> (r: Vec<usize>)
    requires
        1 <= pt <= 5,
    ensures
        index_table_ok(r@, pt as nat),
{
    let mut res: Vec<usize> = Vec::new();
    let mut val: usize = 0;
    let mut sq: usize = 0;
    while sq < 64
        invariant
            1 <= pt <= 5,
            sq <= 64,
            res@.len() == sq,
            val == attack_index(pt as nat, sq as nat),
            forall|i: int| 0 <= i < sq ==> #[trigger] res@[i] == attack_index(pt as nat, i as nat),
        decreases 64 - sq,
    {
        res.push(val);
        proof {
            lemma_square_offset_bound(pt as nat, 0, (sq + 1) as nat);
        }
        val += count_ones(pseudo_attacks(pt, sq)) as usize;
        sq += 1;
    }
    res.push(val);
    res
}

/// Builds the index tables.
pub fn threat_indices() -> (r: ThreatIndices)
    ensures
        r.wf(),
{
    ThreatIndices {
        knight: index_table(1),
        bishop: index_table(2),
        rook: index_table(3),
        queen: index_table(4),
        king: index_table(5),
    }
}

/// The slot of each coloured piece (own pawn to king 0..5, opponent's 6..11) among the listed
/// piece types `a`, the opponent's after the own; `usize::MAX` for pieces not listed.
pub open spec fn offset_map(a: Seq<usize>, k: nat, n: nat) -> nat
    decreases n,
{
    if n == 0 {
        usize::MAX as nat
    } else {
        let i = (n - 1) as nat;
        if a[i as int] + 4 == k {
            i + a.len()
        } else if a[i as int] == k + 2 {
            i
        } else {
            offset_map(a, k, i)
        }
    }
}

fn offset_mapping(a: &[usize]) -> (r: Vec<usize>)
    requires
        a@.len() <= 6,
        forall|i: int| 0 <= i < a@.len() ==> 2 <= #[trigger] a@[i] <= 7,
    ensures
        r@.len() == 12,
        forall|k: int| 0 <= k < 12 ==> #[trigger] r@[k] == offset_map(a@, k as nat, a@.len()),
{
    let mut res: Vec<usize> = Vec::new();
    let mut k: usize = 0;
    while k < 12
        invariant
            k <= 12,
            res@.len() == k,
            forall|j: int| 0 <= j < k ==> #[trigger] res@[j] == usize::MAX,
        decreases 12 - k,
    {
        res.push(usize::MAX);
        k += 1;
    }
    let n = a.len();
    let mut i: usize = 0;
    while i < n
        invariant
            n == a@.len(),
            n <= 6,
            i <= n,
            forall|j: int| 0 <= j < a@.len() ==> 2 <= #[trigger] a@[j] <= 7,
            res@.len() == 12,
            forall|k: int| 0 <= k < 12 ==> #[trigger] res@[k] == offset_map(a@, k as nat, i as nat),
        decreases n - i,
    {
        let x = a[i];
        res[x - 2] = i;
        res[x + 4] = i + n;
        i += 1;
    }
    res
}

/// Whether a coloured piece (0..11) is of the piece type `piece` (2..7).
pub fn target_is(target: usize, piece: usize) -> (r: bool)
    requires
        piece >= 2,
    ensures
        r == (target % 6 == piece - 2),
{
    target % 6 == piece - 2
}

/// Set squares of `table` below `dest`.
fn below(table: u64, dest: usize) -> (r: usize)
    requires
        dest < 64,
    ensures
        r == count_below(table, dest as nat),
        r <= 64,
{
    proof {
        lemma_popcount_masked(table, dest as u64);
        lemma_count_below_mono(table, dest as nat, 64);
        assert(1u64 << (dest as u64) >= 1) by (bit_vector)
            requires dest < 64usize;
    }
    count_ones(table & ((1u64 << dest) - 1)) as usize
}

pub open spec fn pawn_slots() -> Seq<usize> {
    seq![2usize, 3usize, 5usize]
}

pub open spec fn slider_slots() -> Seq<usize> {
    seq![2usize, 3usize, 4usize, 5usize, 7usize]
}

pub open spec fn king_slots() -> Seq<usize> {
    seq![2usize, 3usize, 4usize, 5usize]
}

/// Which of the two captures a pawn on `src` makes onto `dest`: 0 towards the a-file
/// (for white; towards the h-file for black), 1 the other way.
pub open spec fn pawn_capture_side(src: nat, dest: nat) -> nat {
    let up = dest > src;
    let diff: int = if dest > src { dest - src } else { src - dest };
    if diff == (if up { 7int } else { 9int }) { 0 } else { 1 }
}

/// The feature of a threat of a piece of type `piece` on `src` against the coloured piece
/// `target` (own pawn to king 0..5, opponent's 6..11) on `dest`; `enemy` when `target` is the
/// opponent's. `None` for pairs without a feature and for the second of two mirrored threats.
pub open spec fn piece_threat(piece: nat, src: nat, dest: nat, target: nat, enemy: bool) -> Option<int> {
    if piece == 2 {
        let m = offset_map(pawn_slots(), target, 3);
        if m == usize::MAX as nat || (enemy && dest > src && target % 6 == 0) {
            None
        } else {
            Some(m * 84 + (src / 8 - 1) * 14 + (2 * (src % 8) + pawn_capture_side(src, dest) - 1))
        }
    } else if piece == 3 {
        if dest > src && target % 6 == 1 {
            None
        } else {
            Some(
                (offset_knight() + target * attack_index(1, 64) + attack_index(1, src) + count_below(
                    pseudo_attack_set(1, src as u64),
                    dest,
                )) as int,
            )
        }
    } else if piece == 4 || piece == 5 {
        let pt = (piece - 2) as nat;
        let base = if piece == 4 { offset_bishop() } else { offset_rook() };
        let m = offset_map(slider_slots(), target, 5);
        if m == usize::MAX as nat || (dest > src && target % 6 == pt) {
            None
        } else {
            Some(
                (base + m * attack_index(pt, 64) + attack_index(pt, src) + count_below(
                    pseudo_attack_set(pt, src as u64),
                    dest,
                )) as int,
            )
        }
    } else if piece == 6 {
        if dest > src && target % 6 == 4 {
            None
        } else {
            Some(
                (offset_queen() + target * attack_index(4, 64) + attack_index(4, src) + count_below(
                    pseudo_attack_set(4, src as u64),
                    dest,
                )) as int,
            )
        }
    } else {
        let m = offset_map(king_slots(), target, 4);
        if m == usize::MAX as nat {
            None
        } else {
            Some(
                (offset_king() + m * attack_index(5, 64) + attack_index(5, src) + count_below(
                    pseudo_attack_set(5, src as u64),
                    dest,
                )) as int,
            )
        }
    }
}

/// The first feature after the range of a piece type.
pub open spec fn range_end(piece: nat) -> nat {
    if piece == 2 {
        offset_knight()
    } else if piece == 3 {
        offset_bishop()
    } else if piece == 4 {
        offset_rook()
    } else if piece == 5 {
        offset_queen()
    } else if piece == 6 {
        offset_king()
    } else {
        offset_end()
    }
}

/// The first feature of the range of a piece type.
pub open spec fn range_start(piece: nat) -> nat {
    if piece == 2 {
        0
    } else if piece == 3 {
        offset_knight()
    } else if piece == 4 {
        offset_bishop()
    } else if piece == 5 {
        offset_rook()
    } else if piece == 6 {
        offset_queen()
    } else {
        offset_king()
    }
}

/// The piece types (0 pawn to 5 king) a piece's bucketed threats have features for: a pawn's
/// against pawns, knights and rooks; a bishop's and a rook's against every type but the queen;
/// a king's against pawns, knights, bishops and rooks; a knight's and a queen's against all.
pub open spec fn bucket_kind(piece: nat, kind: nat) -> bool {
    &&& kind < 6
    &&& (piece == 2 ==> kind == 0 || kind == 1 || kind == 3)
    &&& (piece == 4 || piece == 5 ==> kind != 4)
    &&& (piece == 7 ==> kind <= 3)
}

/// How many piece types below `kind` a piece's bucketed threats have features for.
pub open spec fn bucket_kinds_below(piece: nat, kind: nat) -> nat
    decreases kind,
{
    if kind == 0 {
        0
    } else {
        bucket_kinds_below(piece, (kind - 1) as nat) + if bucket_kind(piece, (kind - 1) as nat) {
            1nat
        } else {
            0nat
        }
    }
}

/// The slot of a coloured target (own pawn to king 0..5, opponent's 6..11): the own kinds
/// first, then the opponent's, each in the order of the piece types.
pub open spec fn bucket_slot(piece: nat, target: nat) -> nat {
    (if target >= 6 { bucket_kinds_below(piece, 6) } else { 0 }) + bucket_kinds_below(piece, target % 6)
}

/// The features one target kind holds for a piece: 84 pawn captures, or one per empty-board
/// attack of the piece from each square.
pub open spec fn kind_block(piece: nat) -> nat {
    if piece == 2 { 84 } else { attack_index((piece - 2) as nat, 64) }
}

/// Where a bucketed threat's feature lies: a threat has a feature exactly when its target's
/// piece type is one the attacker's type has features for, unless it is the second of two
/// equal pieces threatening each other (for pawns: enemy pawns; kings never pair). The feature
/// is the attacker's block, then the target's slot times the features of one kind, then the
/// place of the source square and the target square; each piece's range holds all its slots
/// of both colours.
pub proof fn lemma_piece_threat_layout(piece: nat, src: nat, dest: nat, target: nat, enemy: bool)
    requires
        2 <= piece <= 7,
        target < 12,
    ensures
        ({
            let r = piece_threat(piece, src, dest, target, enemy);
            let second = if piece == 2 {
                enemy && dest > src && target % 6 == 0
            } else if piece == 7 {
                false
            } else {
                dest > src && target % 6 == piece - 2
            };
            &&& r is Some <==> (bucket_kind(piece, target % 6) && !second)
            &&& r is Some ==> r->0 == range_start(piece) + bucket_slot(piece, target) * kind_block(piece) + if piece == 2 {
                (src / 8 - 1) * 14 + (2 * (src % 8) + pawn_capture_side(src, dest) - 1)
            } else {
                (attack_index((piece - 2) as nat, src) + count_below(pseudo_attack_set((piece - 2) as nat, src as u64), dest)) as int
            }
        }),
        range_end(piece) == range_start(piece) + 2 * bucket_kinds_below(piece, 6) * kind_block(piece),
{
    reveal_with_fuel(bucket_kinds_below, 7);
    reveal_with_fuel(offset_map, 6);
    assert(pawn_slots() =~= seq![2usize, 3usize, 5usize]);
    assert(slider_slots() =~= seq![2usize, 3usize, 4usize, 5usize, 7usize]);
    assert(king_slots() =~= seq![2usize, 3usize, 4usize, 5usize]);
}

/// The inputs on which `map_piece_threat` computes its feature within the range of the piece.
pub open spec fn piece_threat_ok(piece: nat, src: nat, dest: nat, target: nat, enemy: bool) -> bool {
    &&& 2 <= piece <= 7
    &&& src < 64
    &&& dest < 64
    &&& (piece == 2 || piece == 4 || piece == 5 || piece == 7) ==> target < 12
    &&& piece_threat(piece, src, dest, target, enemy) matches Some(v) ==> {
        &&& v < range_end(piece)
        &&& piece == 2 ==> src >= 8 && 2 * (src % 8) + pawn_capture_side(src, dest) >= 1
    }
}

fn map_pawn_threat(src: usize, dest: usize, target: usize, enemy: bool) -> (r: Option<usize>)
    requires
        piece_threat_ok(2, src as nat, dest as nat, target as nat, enemy),
    ensures
        (match piece_threat(2, src as nat, dest as nat, target as nat, enemy) {
            Some(v) => r == Some(v as usize),
            None => r is None,
        }),
{
    let map = offset_mapping(&[Piece::PAWN, Piece::KNIGHT, Piece::ROOK]);
    proof {
        assert(map@[target as int] == offset_map(pawn_slots(), target as nat, 3));
    }
    if map[target] == usize::MAX || (enemy && dest > src && target_is(target, Piece::PAWN)) {
        None
    } else {
        let up: usize = if dest > src { 1 } else { 0 };
        let diff = if dest > src { dest - src } else { src - dest };
        let id: usize = if diff == (if up == 0 { 9 } else { 7 }) { 0 } else { 1 };
        proof {
            assert(id == pawn_capture_side(src as nat, dest as nat));
        }
        let attack = 2 * (src % 8) + id - 1;
        let threat = map[target] * PAWN_INDICES + (src / 8 - 1) * 14 + attack;
        Some(threat)
    }
}

proof fn lemma_offsets_bound()
    ensures
        attack_index(1, 64) <= 4096,
        attack_index(2, 64) <= 4096,
        attack_index(3, 64) <= 4096,
        attack_index(4, 64) <= 4096,
        attack_index(5, 64) <= 4096,
        offset_end() <= 504 + 52 * 4096,
{
    lemma_square_offset_bound(1, 0, 64);
    lemma_square_offset_bound(2, 0, 64);
    lemma_square_offset_bound(3, 0, 64);
    lemma_square_offset_bound(4, 0, 64);
    lemma_square_offset_bound(5, 0, 64);
}

impl ThreatIndices {
    pub fn knight_offset(&self) -> (r: usize)
        ensures
            r == offset_knight(),
    {
        6 * PAWN_INDICES
    }

    pub fn bishop_offset(&self) -> (r: usize)
        requires
            self.wf(),
        ensures
            r == offset_bishop(),
    {
        proof {
            lemma_offsets_bound();
        }
        self.knight_offset() + 12 * self.knight[64]
    }

    pub fn rook_offset(&self) -> (r: usize)
        requires
            self.wf(),
        ensures
            r == offset_rook(),
    {
        proof {
            lemma_offsets_bound();
        }
        self.bishop_offset() + 10 * self.bishop[64]
    }

    pub fn queen_offset(&self) -> (r: usize)
        requires
            self.wf(),
        ensures
            r == offset_queen(),
    {
        proof {
            lemma_offsets_bound();
        }
        self.rook_offset() + 10 * self.rook[64]
    }

    pub fn king_offset(&self) -> (r: usize)
        requires
            self.wf(),
        ensures
            r == offset_king(),
    {
        proof {
            lemma_offsets_bound();
        }
        self.queen_offset() + 12 * self.queen[64]
    }

    /// The number of threat features of one side.
    pub fn end(&self) -> (r: usize)
        requires
            self.wf(),
        ensures
            r == offset_end(),
    {
        proof {
            lemma_offsets_bound();
        }
        self.king_offset() + 8 * self.king[64]
    }
}

fn map_knight_threat(ix: &ThreatIndices, src: usize, dest: usize, target: usize) -> (r: Option<usize>)
    requires
        ix.wf(),
        piece_threat_ok(3, src as nat, dest as nat, target as nat, false),
    ensures
        (match piece_threat(3, src as nat, dest as nat, target as nat, false) {
            Some(v) => r == Some(v as usize),
            None => r is None,
        }),
{
    if dest > src && target_is(target, Piece::KNIGHT) {
        None
    } else {
        proof {
            lemma_offsets_bound();
            assert(ix.knight@[src as int] == attack_index(1, src as nat));
            assert(ix.knight@[64] == attack_index(1, 64));
        }
        let idx = ix.knight[src] + below(pseudo_attacks(1, src), dest);
        let threat = ix.knight_offset() + target * ix.knight[64] + idx;
        Some(threat)
    }
}

fn map_bishop_threat(ix: &ThreatIndices, src: usize, dest: usize, target: usize) -> (r: Option<usize>)
    requires
        ix.wf(),
        piece_threat_ok(4, src as nat, dest as nat, target as nat, false),
    ensures
        (match piece_threat(4, src as nat, dest as nat, target as nat, false) {
            Some(v) => r == Some(v as usize),
            None => r is None,
        }),
{
    let map = offset_mapping(&[Piece::PAWN, Piece::KNIGHT, Piece::BISHOP, Piece::ROOK, Piece::KING]);
    proof {
        assert(map@[target as int] == offset_map(slider_slots(), target as nat, 5));
    }
    if map[target] == usize::MAX || dest > src && target_is(target, Piece::BISHOP) {
        None
    } else {
        proof {
            lemma_offsets_bound();
            assert(ix.bishop@[src as int] == attack_index(2, src as nat));
            assert(ix.bishop@[64] == attack_index(2, 64));
        }
        let idx = ix.bishop[src] + below(pseudo_attacks(2, src), dest);
        let threat = ix.bishop_offset() + map[target] * ix.bishop[64] + idx;
        Some(threat)
    }
}

fn map_rook_threat(ix: &ThreatIndices, src: usize, dest: usize, target: usize) -> (r: Option<usize>)
    requires
        ix.wf(),
        piece_threat_ok(5, src as nat, dest as nat, target as nat, false),
    ensures
        (match piece_threat(5, src as nat, dest as nat, target as nat, false) {
            Some(v) => r == Some(v as usize),
            None => r is None,
        }),
{
    let map = offset_mapping(&[Piece::PAWN, Piece::KNIGHT, Piece::BISHOP, Piece::ROOK, Piece::KING]);
    proof {
        assert(map@[target as int] == offset_map(slider_slots(), target as nat, 5));
    }
    if map[target] == usize::MAX || dest > src && target_is(target, Piece::ROOK) {
        None
    } else {
        proof {
            lemma_offsets_bound();
            assert(ix.rook@[src as int] == attack_index(3, src as nat));
            assert(ix.rook@[64] == attack_index(3, 64));
        }
        let idx = ix.rook[src] + below(pseudo_attacks(3, src), dest);
        let threat = ix.rook_offset() + map[target] * ix.rook[64] + idx;
        Some(threat)
    }
}

fn map_queen_threat(ix: &ThreatIndices, src: usize, dest: usize, target: usize) -> (r: Option<usize>)
    requires
        ix.wf(),
        piece_threat_ok(6, src as nat, dest as nat, target as nat, false),
    ensures
        (match piece_threat(6, src as nat, dest as nat, target as nat, false) {
            Some(v) => r == Some(v as usize),
            None => r is None,
        }),
{
    if dest > src && target_is(target, Piece::QUEEN) {
        None
    } else {
        proof {
            lemma_offsets_bound();
            assert(ix.queen@[src as int] == attack_index(4, src as nat));
            assert(ix.queen@[64] == attack_index(4, 64));
        }
        let idx = ix.queen[src] + below(pseudo_attacks(4, src), dest);
        let threat = ix.queen_offset() + target * ix.queen[64] + idx;
        Some(threat)
    }
}

fn map_king_threat(ix: &ThreatIndices, src: usize, dest: usize, target: usize) -> (r: Option<usize>)
    requires
        ix.wf(),
        piece_threat_ok(7, src as nat, dest as nat, target as nat, false),
    ensures
        (match piece_threat(7, src as nat, dest as nat, target as nat, false) {
            Some(v) => r == Some(v as usize),
            None => r is None,
        }),
{
    let map = offset_mapping(&[Piece::PAWN, Piece::KNIGHT, Piece::BISHOP, Piece::ROOK]);
    proof {
        assert(map@[target as int] == offset_map(king_slots(), target as nat, 4));
    }
    if map[target] == usize::MAX {
        None
    } else {
        proof {
            lemma_offsets_bound();
            assert(ix.king@[src as int] == attack_index(5, src as nat));
            assert(ix.king@[64] == attack_index(5, 64));
        }
        let idx = ix.king[src] + below(pseudo_attacks(5, src), dest);
        let threat = ix.king_offset() + map[target] * ix.king[64] + idx;
        Some(threat)
    }
}

proof fn lemma_piece_threat_start(piece: nat, src: nat, dest: nat, target: nat, enemy: bool)
    requires
        piece_threat_ok(piece, src, dest, target, enemy),
    ensures
        piece_threat(piece, src, dest, target, enemy) matches Some(v) ==> range_start(piece) <= v,
{
    if piece == 2 {
        match piece_threat(piece, src, dest, target, enemy) {
            Some(v) => {
                let m = offset_map(pawn_slots(), target, 3);
                assert(m * 84 >= 0 && (src / 8 - 1) * 14 >= 0) by (nonlinear_arith)
                    requires src >= 8, m >= 0;
            },
            None => {},
        }
    }
}

/// The feature of a threat of a piece of type `piece` (pawn 2 to king 7) on `src` against the
/// coloured piece `target` on `dest`, within the range of the attacking piece type; the side
/// offset is added by the caller.
pub fn map_piece_threat(ix: &ThreatIndices, piece: usize, src: usize, dest: usize, target: usize, enemy: bool) -> (r: Option<usize>)
    requires
        ix.wf(),
        piece_threat_ok(piece as nat, src as nat, dest as nat, target as nat, enemy),
    ensures
        (match piece_threat(piece as nat, src as nat, dest as nat, target as nat, enemy) {
            Some(v) => r == Some(v as usize),
            None => r is None,
        }),
        r matches Some(v) ==> range_start(piece as nat) <= v < range_end(piece as nat),
{
    proof {
        lemma_piece_threat_start(piece as nat, src as nat, dest as nat, target as nat, enemy);
        lemma_offsets_bound();
        assert(range_end(piece as nat) <= offset_end());
    }
    if piece == Piece::PAWN {
        map_pawn_threat(src, dest, target, enemy)
    } else if piece == Piece::KNIGHT {
        map_knight_threat(ix, src, dest, target)
    } else if piece == Piece::BISHOP {
        map_bishop_threat(ix, src, dest, target)
    } else if piece == Piece::ROOK {
        map_rook_threat(ix, src, dest, target)
    } else if piece == Piece::QUEEN {
        map_queen_threat(ix, src, dest, target)
    } else {
        map_king_threat(ix, src, dest, target)
    }
}

/// `b` mirrored across the d/e file boundary.
pub open spec fn files_mirrored(b: u64) -> u64 {
    board_of(|t: u64| bit_set(b, t ^ 7u64))
}

proof fn lemma_flip_pattern(b: u64, t: u64)
    by (bit_vector)
    requires
        t < 64,
    ensures
        ({
            let b1 = ((b >> 1u64) & 0x5555_5555_5555_5555u64) | ((b & 0x5555_5555_5555_5555u64) << 1u64);
            let b2 = ((b1 >> 2u64) & 0x3333_3333_3333_3333u64) | ((b1 & 0x3333_3333_3333_3333u64) << 2u64);
            let b3 = ((b2 >> 4u64) & 0x0f0f_0f0f_0f0f_0f0fu64) | ((b2 & 0x0f0f_0f0f_0f0f_0f0fu64) << 4u64);
            bit_set(b3, t) == bit_set(b, t ^ 7u64)
        }),
        t ^ 7u64 < 64,
        (t ^ 7u64) ^ 7u64 == t,
{
}

/// Mirrors the board across the d/e file boundary.
pub fn flip_horizontal(bb: u64) -> (r: u64)
    ensures
        r == files_mirrored(bb),
{
    let mut bb = bb;
    let ghost b0 = bb;
    let k1: u64 = 0x5555555555555555;
    let k2: u64 = 0x3333333333333333;
    let k4: u64 = 0x0f0f0f0f0f0f0f0f;
    bb = ((bb >> 1) & k1) | ((bb & k1) << 1);
    bb = ((bb >> 2) & k2) | ((bb & k2) << 2);
    let r = ((bb >> 4) & k4) | ((bb & k4) << 4);
    proof {
        assert forall|t: u64| t < 64 implies #[trigger] bit_set(r, t) == bit_set(b0, t ^ 7u64) by {
            lemma_flip_pattern(b0, t);
        }
        lemma_is_board_of(r, |t: u64| bit_set(b0, t ^ 7u64));
    }
    r
}

/// Mirroring the files twice gives the board back.
pub proof fn lemma_flip_involution(b: u64)
    ensures
        files_mirrored(files_mirrored(b)) == b,
{
    assert forall|t: u64| t < 64 implies #[trigger] bit_set(files_mirrored(files_mirrored(b)), t) == bit_set(b, t) by {
        lemma_flip_pattern(b, t);
        lemma_board_of(|x: u64| bit_set(files_mirrored(b), x ^ 7u64), t);
        lemma_board_of(|x: u64| bit_set(b, x ^ 7u64), t ^ 7u64);
    }
    lemma_bit_ext(files_mirrored(files_mirrored(b)), b);
}

/// The boards as the bucketed threats read them: files mirrored unless the white king stands on
/// the e-to-h files.
pub open spec fn oriented_boards(bbs: Seq<u64>) -> Seq<u64> {
    if u64_trailing_zeros(bbs[0] & bbs[7]) % 8 <= 3 {
        Seq::new(8, |i: int| files_mirrored(bbs[i]))
    } else {
        bbs
    }
}

/// The boards with the files of each mirrored.
pub open spec fn files_mirrored_boards(bbs: Seq<u64>) -> Seq<u64> {
    Seq::new(8, |i: int| files_mirrored(bbs[i]))
}

/// Mirroring the files of a board with one white king changes neither its oriented boards nor
/// its bucketed threat features: the inputs orient the board by that king.
pub proof fn lemma_bucket_features_file_mirror(bbs: Seq<u64>, k: u64)
    requires
        bbs.len() == 8,
        k < 64,
        bbs[0] & bbs[7] == 1u64 << k,
    ensures
        oriented_boards(files_mirrored_boards(bbs)) == oriented_boards(bbs),
        bucket_threats(oriented_boards(files_mirrored_boards(bbs))) == bucket_threats(oriented_boards(bbs)),
{
    let m = files_mirrored_boards(bbs);
    lemma_mirror_coords(k, 7);
    assert forall|t: u64| t < 64 implies #[trigger] bit_set(m[0] & m[7], t) == bit_set(1u64 << (k ^ 7), t) by {
        lemma_mirror_coords(t, 7);
        lemma_board_of(|x: u64| bit_set(bbs[0], x ^ 7u64), t);
        lemma_board_of(|x: u64| bit_set(bbs[7], x ^ 7u64), t);
        lemma_bit_ops(m[0], m[7], t);
        lemma_bit_ops(bbs[0], bbs[7], t ^ 7);
        lemma_bit_ops(0, k, t ^ 7);
        lemma_bit_ops(0, k ^ 7, t);
    }
    lemma_bit_ext(m[0] & m[7], 1u64 << (k ^ 7));
    lemma_single_bit_zeros(k);
    lemma_single_bit_zeros(k ^ 7);
    if u64_trailing_zeros(bbs[0] & bbs[7]) % 8 <= 3 {
        assert(oriented_boards(bbs) == m);
        assert(oriented_boards(m) == m);
    } else {
        assert forall|i: int| 0 <= i < 8 implies #[trigger] files_mirrored(m[i]) == bbs[i] by {
            lemma_flip_involution(bbs[i]);
        }
        assert(oriented_boards(m) =~= bbs);
    }
}

/// The trailing zeros of a single square's bitboard count up to that square.
proof fn lemma_single_bit_zeros(k: u64)
    requires
        k < 64,
    ensures
        u64_trailing_zeros(1u64 << k) == k,
{
    vstd::std_specs::bits::axiom_u64_trailing_zeros(1u64 << k);
    lemma_bit_ops(0, k, k);
    if 1u64 << k == 0 {
        lemma_bit_ops(0, 0, k);
    }
    let z = u64_trailing_zeros(1u64 << k) as u64;
    lemma_bit_ops(0, k, z);
}

/// The coloured piece (own pawn to king 0..5, opponent's 6..11) on `sq`, 13 for none.
pub open spec fn code_on(bbs: Seq<u64>, sq: u64) -> nat {
    match last_owner(bbs, sq, 12) {
        Some(j) => j,
        None => 13,
    }
}

/// The squares a piece attacks: pawn captures, or the attacks through the occupancy.
pub open spec fn bucket_attacks(bbs: Seq<u64>, side: nat, piece: nat, from: u64) -> u64 {
    let occ = bbs[0] | bbs[1];
    if piece == 2 {
        pawn_captures(side as u64, from)
    } else {
        piece_attack_set(piece, from, occ)
    }
}

pub open spec fn bucket_dest_list(bbs: Seq<u64>, side: nat, piece: nat, from: u64) -> Seq<usize> {
    squares_of(bucket_attacks(bbs, side, piece, from) & (bbs[0] | bbs[1]))
}

/// Features of the threats of one piece against the squares `dests`, in order, shifted into
/// the half of `side`.
pub open spec fn bucket_dests(bbs: Seq<u64>, side: nat, piece: nat, from: u64, dests: Seq<usize>) -> Seq<usize>
    decreases dests.len(),
{
    if dests.len() == 0 {
        Seq::empty()
    } else {
        let prev = bucket_dests(bbs, side, piece, from, dests.drop_last());
        let dest = dests.last() as u64;
        let enemy = bit_set(bbs[(1 - side) as int], dest);
        match piece_threat(piece, from as nat, dest as nat, code_on(bbs, dest), enemy) {
            Some(v) => prev.push((offset_end() * side + v) as usize),
            None => prev,
        }
    }
}

pub open spec fn bucket_froms(bbs: Seq<u64>, side: nat, piece: nat, froms: Seq<usize>) -> Seq<usize>
    decreases froms.len(),
{
    if froms.len() == 0 {
        Seq::empty()
    } else {
        let from = froms.last() as u64;
        bucket_froms(bbs, side, piece, froms.drop_last()) + bucket_dests(
            bbs,
            side,
            piece,
            from,
            bucket_dest_list(bbs, side, piece, from),
        )
    }
}

pub open spec fn bucket_side(bbs: Seq<u64>, side: nat, n: nat) -> Seq<usize>
    decreases n,
{
    if n == 0 {
        Seq::empty()
    } else {
        let piece = (2 + n - 1) as nat;
        bucket_side(bbs, side, (n - 1) as nat) + bucket_froms(
            bbs,
            side,
            piece,
            squares_of(bbs[side as int] & bbs[piece as int]),
        )
    }
}

/// The threat features of the (already oriented) boards: white's threats, then black's.
pub open spec fn bucket_threats(bbs: Seq<u64>) -> Seq<usize> {
    bucket_side(bbs, 0, 6) + bucket_side(bbs, 1, 6)
}

/// Every threat on the (oriented) boards maps within its piece's range.
pub open spec fn bucket_threats_ok(bbs: Seq<u64>) -> bool {
    forall|side: nat, piece: nat, from: u64, k: int|
        side < 2 && 2 <= piece <= 7 && from < 64 && bit_set(bbs[side as int] & bbs[piece as int], from)
            && 0 <= k < bucket_dest_list(bbs, side, piece, from).len() ==> {
            let dest = #[trigger] bucket_dest_list(bbs, side, piece, from)[k] as u64;
            piece_threat_ok(piece, from as nat, dest as nat, code_on(bbs, dest), bit_set(bbs[(1 - side) as int], dest))
        }
}

proof fn lemma_single_bit_and(o: u64, d: u64)
    by (bit_vector)
    requires
        d < 64,
    ensures
        (((1u64 << d) & o) > 0) == bit_set(o, d),
{
}

/// The coloured piece codes of the squares (13 for empty), from the owners.
fn piece_codes(bbs: &[u64; 8]) -> (r: Vec<usize>)
    ensures
        r@.len() == 64,
        forall|sq: int| 0 <= sq < 64 ==> #[trigger] r@[sq] == code_on(bbs@, sq as u64),
{
    let (piece_on_sq, color_on_sq) = owners(bbs);
    let mut codes: Vec<usize> = Vec::new();
    let mut sq: usize = 0;
    while sq < 64
        invariant
            sq <= 64,
            codes@.len() == sq,
            piece_on_sq@.len() == 64,
            color_on_sq@.len() == 64,
            forall|x: int| 0 <= x < 64 ==> #[trigger] piece_on_sq@[x] == piece_on(bbs@, x as u64),
            forall|x: int| 0 <= x < 64 ==> #[trigger] color_on_sq@[x] == color_on(bbs@, x as u64),
            forall|x: int| 0 <= x < sq ==> #[trigger] codes@[x] == code_on(bbs@, x as u64),
        decreases 64 - sq,
    {
        proof {
            let o = last_owner(bbs@, sq as u64, 12);
            if o is Some {
                lemma_owner_valid(bbs@, sq as u64, 12);
            }
        }
        let code = if piece_on_sq[sq] == usize::MAX {
            13
        } else {
            6 * color_on_sq[sq] + piece_on_sq[sq] - 2
        };
        codes.push(code);
        sq += 1;
    }
    codes
}

/// Appends the features of the threats of a piece on `from` against the squares of `dests`.
fn push_bucket_dests(
    ix: &ThreatIndices,
    out: &mut Vec<usize>,
    codes: &Vec<usize>,
    Ghost(bbs): Ghost<Seq<u64>>,
    side: usize,
    piece: usize,
    from: usize,
    dests: u64,
    opps: u64,
)
    requires
        ix.wf(),
        bbs.len() == 8,
        side < 2,
        2 <= piece <= 7,
        from < 64,
        opps == bbs[(1 - side) as int],
        codes@.len() == 64,
        forall|sq: int| 0 <= sq < 64 ==> #[trigger] codes@[sq] == code_on(bbs, sq as u64),
        dests == bucket_attacks(bbs, side as nat, piece as nat, from as u64) & (bbs[0] | bbs[1]),
        bucket_threats_ok(bbs),
        bit_set(bbs[side as int] & bbs[piece as int], from as u64),
        forall|j: int| 0 <= j < old(out)@.len() ==> #[trigger] old(out)@[j] < 2 * offset_end(),
    ensures
        final(out)@ == old(out)@ + bucket_dests(bbs, side as nat, piece as nat, from as u64, squares_of(dests)),
        forall|j: int| 0 <= j < final(out)@.len() ==> #[trigger] final(out)@[j] < 2 * offset_end(),
{
    let tos = squares(dests);
    proof {
        lemma_set_bits_len(dests, 64);
        lemma_offsets_bound();
    }
    let end = ix.end();
    proof {
        assert(end * side <= 504 + 52 * 4096) by (nonlinear_arith)
            requires end <= 504 + 52 * 4096, side < 2;
    }
    let side_offset = end * side;
    let ghost start = out@;
    let mut i: usize = 0;
    while i < tos.len()
        invariant
            ix.wf(),
            bbs.len() == 8,
            side < 2,
            2 <= piece <= 7,
            from < 64,
            side_offset == offset_end() * side,
            offset_end() <= 504 + 52 * 4096,
            opps == bbs[(1 - side) as int],
            codes@.len() == 64,
            forall|sq: int| 0 <= sq < 64 ==> #[trigger] codes@[sq] == code_on(bbs, sq as u64),
            tos@ == squares_of(dests),
            dests == bucket_attacks(bbs, side as nat, piece as nat, from as u64) & (bbs[0] | bbs[1]),
            bucket_threats_ok(bbs),
            bit_set(bbs[side as int] & bbs[piece as int], from as u64),
            i <= tos@.len(),
            forall|k: int| 0 <= k < tos@.len() ==> #[trigger] tos@[k] < 64,
            out@ == start + bucket_dests(bbs, side as nat, piece as nat, from as u64, tos@.take(i as int)),
            forall|j: int| 0 <= j < out@.len() ==> #[trigger] out@[j] < 2 * offset_end(),
        decreases tos@.len() - i,
    {
        let dest = tos[i];
        proof {
            assert(tos@.take(i + 1).drop_last() == tos@.take(i as int));
            assert(tos@.take(i + 1).last() == dest);
            lemma_single_bit_and(opps, dest as u64);
            assert(bucket_dest_list(bbs, side as nat, piece as nat, from as u64)[i as int] == dest);
        }
        let enemy = (1u64 << dest) & opps > 0;
        let idx = map_piece_threat(ix, piece, from, dest, codes[dest], enemy);
        match idx {
            Some(v) => {
                proof {
                    assert(v < range_end(piece as nat));
                    assert(range_end(piece as nat) <= offset_end());
                    assert(offset_end() * side + v < 2 * offset_end()) by (nonlinear_arith)
                        requires side < 2, v < offset_end();
                }
                out.push(side_offset + v);
            },
            None => {},
        }
        i += 1;
    }
    proof {
        assert(tos@.take(tos@.len() as int) == tos@);
    }
}

/// The boards with the files mirrored unless the white king stands on the e-to-h files.
fn orient_boards(bbs_in: [u64; 8]) -> (bbs: [u64; 8])
    ensures
        bbs@ == oriented_boards(bbs_in@),
{
    let mut bbs = bbs_in;
    let ksq = (bbs[0] & bbs[Piece::KING]).trailing_zeros();
    if ksq % 8 <= 3 {
        let mut i: usize = 0;
        while i < 8
            invariant
                i <= 8,
                forall|j: int| 0 <= j < i ==> #[trigger] bbs@[j] == files_mirrored(bbs_in@[j]),
                forall|j: int| i <= j < 8 ==> #[trigger] bbs@[j] == bbs_in@[j],
            decreases 8 - i,
        {
            bbs[i] = flip_horizontal(bbs[i]);
            i += 1;
        }
        proof {
            assert(bbs@ == oriented_boards(bbs_in@));
        }
    }
    bbs
}

/// The boards seen from the other side: colours exchanged, then each board byte-swapped.
fn swap_boards(b: [u64; 8]) -> (bbs: [u64; 8])
    ensures
        bbs@ == swapped_boards(b@),
{
    let mut bbs = b;
    let first = bbs[0];
    bbs[0] = bbs[1];
    bbs[1] = first;
    let mut i: usize = 0;
    while i < 8
        invariant
            i <= 8,
            forall|j: int| 0 <= j < i ==> #[trigger] bbs@[j] == swapped_boards(b@)[j],
            forall|j: int| i <= j < 8 ==> #[trigger] bbs@[j] == b@[if j == 0 { 1int } else if j == 1 { 0int } else { j }],
        decreases 8 - i,
    {
        bbs[i] = swap_bytes(bbs[i]);
        i += 1;
    }
    proof {
        assert(bbs@ == swapped_boards(b@));
    }
    bbs
}

/// The threat features of a position's bitboards: files mirrored unless the white king stands
/// on the e-to-h files, then white's threats (first half) and black's (second half).
pub fn map_features_bucketed(ix: &ThreatIndices, bbs_in: [u64; 8]) -> (r: Vec<usize>)
    requires
        ix.wf(),
        bucket_threats_ok(oriented_boards(bbs_in@)),
    ensures
        r@ == bucket_threats(oriented_boards(bbs_in@)),
        forall|j: int| 0 <= j < r@.len() ==> #[trigger] r@[j] < 2 * offset_end(),
{
    let bbs = orient_boards(bbs_in);
    let ghost ob = bbs@;
    let codes = piece_codes(&bbs);
    let occ = bbs[0] | bbs[1];
    let mut out: Vec<usize> = Vec::new();
    let mut side: usize = 0;
    while side < 2
        invariant
            ix.wf(),
            side <= 2,
            bbs@ == ob,
            bucket_threats_ok(ob),
            occ == ob[0] | ob[1],
            codes@.len() == 64,
            forall|sq: int| 0 <= sq < 64 ==> #[trigger] codes@[sq] == code_on(ob, sq as u64),
            out@ == if side == 0 { Seq::empty() } else if side == 1 { bucket_side(ob, 0, 6) } else { bucket_threats(ob) },
            forall|j: int| 0 <= j < out@.len() ==> #[trigger] out@[j] < 2 * offset_end(),
        decreases 2 - side,
    {
        let opps = bbs[1 - side];
        let ghost before = out@;
        let mut piece: usize = Piece::PAWN;
        while piece <= Piece::KING
            invariant
                ix.wf(),
                side < 2,
                2 <= piece <= 8,
                bbs@ == ob,
                bucket_threats_ok(ob),
                occ == ob[0] | ob[1],
                opps == ob[(1 - side) as int],
                codes@.len() == 64,
                forall|sq: int| 0 <= sq < 64 ==> #[trigger] codes@[sq] == code_on(ob, sq as u64),
                out@ == before + bucket_side(ob, side as nat, (piece - 2) as nat),
                forall|j: int| 0 <= j < out@.len() ==> #[trigger] out@[j] < 2 * offset_end(),
            decreases 8 - piece,
        {
            let pieces = bbs[side] & bbs[piece];
            let froms = squares(pieces);
            proof {
                lemma_set_bits_len(pieces, 64);
            }
            let ghost before_piece = out@;
            let mut fi: usize = 0;
            while fi < froms.len()
                invariant
                    ix.wf(),
                    side < 2,
                    2 <= piece <= 7,
                    bbs@ == ob,
                    bucket_threats_ok(ob),
                    occ == ob[0] | ob[1],
                    opps == ob[(1 - side) as int],
                    codes@.len() == 64,
                    forall|sq: int| 0 <= sq < 64 ==> #[trigger] codes@[sq] == code_on(ob, sq as u64),
                    froms@ == squares_of(pieces),
                    pieces == ob[side as int] & ob[piece as int],
                    fi <= froms@.len(),
                    forall|j: int| 0 <= j < froms@.len() ==> #[trigger] froms@[j] < 64 && bit_set(pieces, froms@[j] as u64),
                    out@ == before_piece + bucket_froms(ob, side as nat, piece as nat, froms@.take(fi as int)),
                    forall|j: int| 0 <= j < out@.len() ==> #[trigger] out@[j] < 2 * offset_end(),
                decreases froms@.len() - fi,
            {
                let from = froms[fi];
                proof {
                    assert(froms@.take(fi + 1).drop_last() == froms@.take(fi as int));
                    assert(froms@.take(fi + 1).last() == from);
                    assert(bit_set(pieces, from as u64));
                }
                let threats = if piece == Piece::PAWN {
                    Attacks::pawn(from, side)
                } else if piece == Piece::KNIGHT {
                    Attacks::knight(from)
                } else if piece == Piece::BISHOP {
                    Attacks::bishop(from, occ)
                } else if piece == Piece::ROOK {
                    Attacks::rook(from, occ)
                } else if piece == Piece::QUEEN {
                    Attacks::queen(from, occ)
                } else {
                    Attacks::king(from)
                } & occ;
                push_bucket_dests(ix, &mut out, &codes, Ghost(ob), side, piece, from, threats, opps);
                fi += 1;
            }
            proof {
                assert(froms@.take(froms@.len() as int) == froms@);
            }
            piece += 1;
        }
        side += 1;
    }
    out
}

/// The boards seen from the other side: colours swapped, ranks mirrored.
pub open spec fn swapped_boards(bbs: Seq<u64>) -> Seq<u64> {
    Seq::new(
        8,
        |i: int| byte_swapped(bbs[if i == 0 { 1int } else if i == 1 { 0int } else { i }]),
    )
}

/// The bitboards of a packed position.
pub open spec fn position_boards(pos: PackedBoard) -> Seq<u64> {
    let pieces = pieces_of(pos.occ, pos.pcs@);
    piece_boards(pieces, pieces.len())
}

/// The input features of a position: for every piece its bucketed and its factorised
/// piece-square index (side to move, side not to move), then every threat.
pub open spec fn input_features(pos: PackedBoard) -> Seq<(usize, usize)> {
    let pieces = pieces_of(pos.occ, pos.pcs@);
    let bbs = position_boards(pos);
    psq_pairs(pieces, pos.ksq as usize, pos.opp_ksq as usize) + threat_pairs(
        bucket_threats(oriented_boards(bbs)),
        bucket_threats(oriented_boards(swapped_boards(bbs))),
    )
}

/// Every threat of the position, seen from either side, maps within its piece type's range.
pub open spec fn threats_in_range(pos: PackedBoard) -> bool {
    let bbs = position_boards(pos);
    &&& bucket_threats_ok(oriented_boards(bbs))
    &&& bucket_threats_ok(oriented_boards(swapped_boards(bbs)))
}

/// The positions these inputs accept: at most 32 pieces with valid codes, kings on the board,
/// every threat within its piece's range, and at most 128 threats seen by the side to move (the
/// other side sees as many).
pub open spec fn position_valid(pos: PackedBoard) -> bool {
    &&& board_well_formed(pos)
    &&& threats_in_range(pos)
    &&& bucket_threats(oriented_boards(position_boards(pos))).len() <= 128
}

/// King-bucketed (32 buckets, mirrored) piece-square inputs with a factoriser, plus threats
/// for both sides.
#[derive(Clone, Copy)]
pub struct ThreatInputsBucketsMirrored;

impl ThreatInputsBucketsMirrored {
    pub const BUCKETS: [usize; 64] = [
        28, 29, 30, 31, 31, 30, 29, 28,
        24, 25, 26, 27, 27, 26, 25, 24,
        20, 21, 22, 23, 23, 22, 21, 20,
        16, 17, 18, 19, 19, 18, 17, 16,
        12, 13, 14, 15, 15, 14, 13, 12,
        8, 9, 10, 11, 11, 10, 9, 8,
        4, 5, 6, 7, 7, 6, 5, 4,
        0, 1, 2, 3, 3, 2, 1, 0,
    ];
    pub const MK_SIZE: usize = 704;
    pub const BUCKET_COUNT: usize = 32;
    pub const FACTORISER_SIZE: usize = 768;
    pub const THREATS_SIZE: usize = 79856;
    pub const HALFKA_V2_SIZE: usize = 704 * 32;
    pub const THREATS_MAX_ACTIVE: usize = 128;
    pub const FACTORISER_MAX_ACTIVE: usize = 32;

    pub fn new() -> (r: Self) {
        ThreatInputsBucketsMirrored
    }

    /// The king-bucketed piece-square index of piece code `pc` on `sq`.
    pub fn make_index(perspective: usize, sq: usize, pc: u8, ksq: usize) -> (r: usize)
        requires
            ksq < 64,
            56 * perspective <= usize::MAX,
            psq_index(perspective, sq, pc, ksq) <= usize::MAX,
        ensures
            r == psq_index(perspective, sq, pc, ksq),
    {
        crate::full_threats::ThreatInputsBucketsMirrored::make_index(perspective, sq, pc, ksq)
    }

    /// The shared piece-square index of a king-bucketed one.
    pub fn derive_factorised_feature(feat: usize) -> (r: usize)
        ensures
            r == factorised_index(feat as nat),
            r < 768,
    {
        crate::full_threats::ThreatInputsBucketsMirrored::derive_factorised_feature(feat)
    }

    /// The bucketed piece-square inputs, the factoriser and the threat features of both sides.
    pub fn num_inputs(&self) -> (r: usize)
        ensures
            r == 768 + 79856 + 22528,
            r == 768 + 2 * offset_end() + 22528,
    {
        proof {
            crate::table_sizes::lemma_offset_end_total();
        }
        Self::FACTORISER_SIZE + Self::THREATS_SIZE + Self::HALFKA_V2_SIZE
    }

    pub fn max_active(&self) -> (r: usize)
        ensures
            r == 160,
    {
        Self::THREATS_MAX_ACTIVE + Self::FACTORISER_MAX_ACTIVE
    }

    /// The input features of a position, as (side to move, side not to move) pairs: for each
    /// piece its bucketed and its factorised piece-square feature, then each threat.
    pub fn map_features(&self, ix: &ThreatIndices, pos: &PackedBoard) -> (r: Vec<(usize, usize)>)
        requires
            ix.wf(),
            position_valid(*pos),
        ensures
            r@ == input_features(*pos),
            r@.len() == 2 * popcount(pos.occ) + bucket_threats(oriented_boards(position_boards(*pos))).len(),
            forall|i: int| 0 <= i < r@.len() ==> (#[trigger] r@[i]).0 < 768 + 79856 + 22528 && r@[i].1 < 768 + 79856 + 22528,
    {
        proof {
            crate::full_threats::lemma_psq_pairs_len(pieces_of(pos.occ, pos.pcs@), pos.ksq as usize, pos.opp_ksq as usize);
        }
        let pieces = pos.pieces();
        let our = pos.our_ksq() as usize;
        let opp = pos.opp_ksq() as usize;
        proof {
            crate::bitboard::lemma_set_bits_len(pos.occ, 64);
            assert forall|j: int| 0 <= j < pieces@.len() implies (#[trigger] pieces@[j]).1 < 64 && pieces@[j].0 & 7u8 < 6 by {
                assert(crate::bitboard::squares_of(pos.occ)[j] < 64);
            }
            assert(pieces_valid(pieces@));
        }
        let mut out = psq_features(&pieces, our, opp);
        let bbs = bitboards(&pieces);
        let stm_feats = map_features_bucketed(ix, bbs);
        let ntm_feats = map_features_bucketed(ix, swap_boards(bbs));
        proof {
            crate::bucket_balance::lemma_position_bucket_counts_agree(*pos);
            crate::table_sizes::lemma_offset_end_total();
            assert forall|j: int| 0 <= j < stm_feats@.len() implies (#[trigger] stm_feats@[j]) < 491520 && ntm_feats@[j] < 491520 by {
                assert(stm_feats@[j] < 2 * offset_end());
                assert(ntm_feats@[j] < 2 * offset_end());
            }
        }
        let ghost psq = out@;
        push_threat_pairs(&mut out, &stm_feats, &ntm_feats);
        proof {
            crate::full_threats::lemma_psq_pairs_bound(pieces@, our, opp);
            let tp = threat_pairs(stm_feats@, ntm_feats@);
            assert forall|i: int| 0 <= i < out@.len() implies (#[trigger] out@[i]).0 < 768 + 79856 + 22528 && out@[i].1 < 768 + 79856 + 22528 by {
                if i < psq.len() {
                    assert(out@[i] == psq[i]);
                } else {
                    let k = i - psq.len();
                    assert(out@[i] == tp[k]);
                    assert(stm_feats@[k] < 2 * offset_end() && ntm_feats@[k] < 2 * offset_end());
                }
            }
        }
        out
    }
}

pub(crate) proof fn lemma_offset_map_bound(a: Seq<usize>, k: nat, n: nat)
    requires
        n <= a.len(),
        offset_map(a, k, n) != usize::MAX as nat,
    ensures
        offset_map(a, k, n) < 2 * a.len(),
    decreases n,
{
    if n > 0 {
        let i = (n - 1) as nat;
        if !(a[i as int] + 4 == k) && !(a[i as int] == k + 2) {
            lemma_offset_map_bound(a, k, i);
        }
    }
}

/// Boards of a position that chess allows: every occupied square (and every pawn) holds a piece
/// of some colour, and no pawn stands on the first or the last rank.
pub open spec fn legal_boards(bbs: Seq<u64>) -> bool {
    &&& board_covered(bbs)
    &&& forall|sq: u64| sq < 64 && #[trigger] bit_set(bbs[2], sq) ==> 8 <= sq < 56
}

/// The threat of the pawn of `side` on `from` against the `k`-th square it attacks maps within
/// the pawn range.
pub open spec fn pawn_dest_ok(bbs: Seq<u64>, side: nat, from: u64, k: int) -> bool {
    let dest = bucket_dest_list(bbs, side, 2, from)[k] as u64;
    piece_threat_ok(2, from as nat, dest as nat, code_on(bbs, dest), bit_set(bbs[(1 - side) as int], dest))
}

/// Every pawn threat of the (oriented) boards maps within the pawn range.
pub open spec fn pawn_threats_ok(bbs: Seq<u64>) -> bool {
    forall|side: nat, from: u64, k: int|
        side < 2 && from < 64 && bit_set(bbs[side as int] & bbs[2], from) && 0 <= k
            < bucket_dest_list(bbs, side, 2, from).len() ==> #[trigger] pawn_dest_ok(bbs, side, from, k)
}

/// The threat of a piece against the `k`-th square it attacks, on boards where every occupied
/// square holds a piece: its target is a coloured piece, and for a pawn on the second to
/// seventh rank, or any other piece, it maps within its piece's range.
proof fn lemma_threat_ok(bbs: Seq<u64>, side: nat, piece: nat, from: u64, k: int)
    requires
        bbs.len() == 8,
        board_covered(bbs),
        side < 2,
        2 <= piece <= 7,
        from < 64,
        bit_set(bbs[side as int] & bbs[piece as int], from),
        0 <= k < bucket_dest_list(bbs, side, piece, from).len(),
        piece == 2 ==> 8 <= from < 56,
    ensures
        ({
            let dest = bucket_dest_list(bbs, side, piece, from)[k] as u64;
            piece_threat_ok(piece, from as nat, dest as nat, code_on(bbs, dest), bit_set(bbs[(1 - side) as int], dest))
        }),
{
    lemma_offsets_bound();
    let occ = bbs[0] | bbs[1];
    let att = bucket_attacks(bbs, side, piece, from);
    lemma_set_bits_len(att & occ, 64);
    let dest = bucket_dest_list(bbs, side, piece, from)[k] as u64;
    assert(dest < 64 && bit_set(att & occ, dest));
    lemma_bit_ops(att, occ, dest);
    lemma_bit_ops(occ, bbs[2], dest);
    assert(last_owner(bbs, dest, 12) is Some);
    lemma_owner_valid(bbs, dest, 12);
    let target = code_on(bbs, dest);
    assert(target < 12);
    lemma_bit_ops(bbs[side as int], bbs[piece as int], from);
    if piece == 2 {
        let sd: u64 = if side == 0 { 0 } else { 1 };
        assert(sd == side);
        lemma_board_of(|y: u64| pawn_capture(sd, from, y), dest);
        let m = offset_map(pawn_slots(), target, 3);
        if m != usize::MAX as nat {
            lemma_offset_map_bound(pawn_slots(), target, 3);
        }
    } else {
        lemma_attacks_within_targets(piece, from, occ, dest);
        let pt = (piece - 2) as nat;
        lemma_below_next_square(pt, 0, from, dest);
        if piece == 4 || piece == 5 {
            let m = offset_map(slider_slots(), target, 5);
            if m != usize::MAX as nat {
                lemma_offset_map_bound(slider_slots(), target, 5);
                assert(m * attack_index(pt, 64) + attack_index(pt, 64) <= 10 * attack_index(pt, 64)) by (nonlinear_arith)
                    requires m < 10;
            }
        } else if piece == 7 {
            let m = offset_map(king_slots(), target, 4);
            if m != usize::MAX as nat {
                lemma_offset_map_bound(king_slots(), target, 4);
                assert(m * attack_index(5, 64) + attack_index(5, 64) <= 8 * attack_index(5, 64)) by (nonlinear_arith)
                    requires m < 8;
            }
        } else {
            assert(target * attack_index(pt, 64) + attack_index(pt, 64) <= 12 * attack_index(pt, 64)) by (nonlinear_arith)
                requires target < 12;
        }
    }
}

/// On boards where every occupied square holds a piece, every threat maps within its
/// piece's range exactly when every pawn threat does.
pub proof fn lemma_threats_ok_iff_pawns(bbs: Seq<u64>)
    requires
        bbs.len() == 8,
        board_covered(bbs),
    ensures
        bucket_threats_ok(bbs) == pawn_threats_ok(bbs),
{
    if pawn_threats_ok(bbs) {
        assert forall|side: nat, piece: nat, from: u64, k: int|
            side < 2 && 2 <= piece <= 7 && from < 64 && bit_set(bbs[side as int] & bbs[piece as int], from)
                && 0 <= k < bucket_dest_list(bbs, side, piece, from).len() implies {
                let dest = #[trigger] bucket_dest_list(bbs, side, piece, from)[k] as u64;
                piece_threat_ok(piece, from as nat, dest as nat, code_on(bbs, dest), bit_set(bbs[(1 - side) as int], dest))
            } by {
            if piece != 2 {
                lemma_threat_ok(bbs, side, piece, from, k);
            } else {
                assert(pawn_dest_ok(bbs, side, from, k));
            }
        }
    }
}

/// On legal boards every threat maps within the range of its piece type.
pub proof fn lemma_bucket_threats_ok(bbs: Seq<u64>)
    requires
        bbs.len() == 8,
        legal_boards(bbs),
    ensures
        bucket_threats_ok(bbs),
{
    assert forall|side: nat, piece: nat, from: u64, k: int|
        side < 2 && 2 <= piece <= 7 && from < 64 && bit_set(bbs[side as int] & bbs[piece as int], from)
            && 0 <= k < bucket_dest_list(bbs, side, piece, from).len() implies {
            let dest = #[trigger] bucket_dest_list(bbs, side, piece, from)[k] as u64;
            piece_threat_ok(piece, from as nat, dest as nat, code_on(bbs, dest), bit_set(bbs[(1 - side) as int], dest))
        } by {
        lemma_bit_ops(bbs[side as int], bbs[piece as int], from);
        lemma_threat_ok(bbs, side, piece, from, k);
    }
}

/// Squares claimed on boards whose bits are those of `bbs` at `sq ^ o`, with the colours
/// exchanged when `swap`.
proof fn lemma_legal_moved(bbs: Seq<u64>, moved: Seq<u64>, o: u64, swap: bool)
    requires
        bbs.len() == 8,
        moved.len() == 8,
        o == 7 || o == 56,
        swap == (o == 56),
        legal_boards(bbs),
        forall|i: int, sq: u64| 0 <= i < 8 && sq < 64 ==> #[trigger] bit_set(moved[i], sq) == bit_set(
            bbs[if swap && i == 0 { 1int } else if swap && i == 1 { 0int } else { i }],
            sq ^ o,
        ),
    ensures
        legal_boards(moved),
{
    assert forall|sq: u64| sq < 64 && bit_set(moved[0] | moved[1] | moved[2], sq) implies #[trigger] last_owner(moved, sq, 12) is Some by {
        lemma_mirror_coords(sq, o);
        let s2 = sq ^ o;
        lemma_bit_ops(moved[0], moved[1], sq);
        lemma_bit_ops(moved[0] | moved[1], moved[2], sq);
        lemma_bit_ops(bbs[0], bbs[1], s2);
        lemma_bit_ops(bbs[0] | bbs[1], bbs[2], s2);
        assert(bit_set(moved[0], sq) == bit_set(bbs[if swap { 1int } else { 0int }], s2));
        assert(bit_set(moved[1], sq) == bit_set(bbs[if swap { 0int } else { 1int }], s2));
        assert(bit_set(moved[2], sq) == bit_set(bbs[2], s2));
        assert(last_owner(bbs, s2, 12) is Some);
        crate::full_threats::lemma_owner_valid(bbs, s2, 12);
        let j = last_owner(bbs, s2, 12)->0;
        let side = pair_side(j);
        let piece = pair_piece(j);
        let side2: nat = if swap { (1 - side) as nat } else { side };
        let j2: nat = 6 * side2 + (piece - 2) as nat;
        assert(pair_side(j2) == side2 && pair_piece(j2) == piece);
        lemma_bit_ops(bbs[side as int], bbs[piece as int], s2);
        lemma_bit_ops(moved[side2 as int], moved[piece as int], sq);
        assert(bit_set(moved[side2 as int], sq) == bit_set(bbs[side as int], s2));
        assert(bit_set(moved[piece as int], sq) == bit_set(bbs[piece as int], s2));
        lemma_claimed_owned(moved, sq, 12, j2);
    }
    assert forall|sq: u64| sq < 64 && #[trigger] bit_set(moved[2], sq) implies 8 <= sq < 56 by {
        lemma_mirror_coords(sq, o);
        assert(bit_set(bbs[2], sq ^ o));
    }
}

/// Mirroring the files and turning the board over keep the boards legal.
pub proof fn lemma_legal_oriented(bbs: Seq<u64>)
    requires
        bbs.len() == 8,
        legal_boards(bbs),
    ensures
        legal_boards(oriented_boards(bbs)),
        legal_boards(swapped_boards(bbs)),
        legal_boards(oriented_boards(swapped_boards(bbs))),
{
    let m = Seq::new(8, |i: int| files_mirrored(bbs[i]));
    assert forall|i: int, sq: u64| 0 <= i < 8 && sq < 64 implies #[trigger] bit_set(m[i], sq) == bit_set(bbs[i], sq ^ 7u64) by {
        lemma_board_of(|t: u64| bit_set(bbs[i], t ^ 7u64), sq);
    }
    lemma_legal_moved(bbs, m, 7, false);
    let sw = swapped_boards(bbs);
    assert forall|i: int, sq: u64| 0 <= i < 8 && sq < 64 implies #[trigger] bit_set(sw[i], sq) == bit_set(
        bbs[if i == 0 { 1int } else if i == 1 { 0int } else { i }],
        sq ^ 56u64,
    ) by {
        crate::bitboard::lemma_byte_swapped_bits(bbs[if i == 0 { 1int } else if i == 1 { 0int } else { i }], sq);
    }
    lemma_legal_moved(bbs, sw, 56, true);
    let msw = Seq::new(8, |i: int| files_mirrored(sw[i]));
    assert forall|i: int, sq: u64| 0 <= i < 8 && sq < 64 implies #[trigger] bit_set(msw[i], sq) == bit_set(sw[i], sq ^ 7u64) by {
        lemma_board_of(|t: u64| bit_set(sw[i], t ^ 7u64), sq);
    }
    lemma_legal_moved(sw, msw, 7, false);
}

/// Each pawn square of the boards comes from a pawn among the pairs.
proof fn lemma_pawn_board(pieces: Seq<(u8, u8)>, n: nat, sq: u64)
    requires
        n <= pieces.len(),
        pieces_valid(pieces),
        sq < 64,
        bit_set(piece_boards(pieces, n)[2], sq),
    ensures
        exists|i: int| 0 <= i < n && (#[trigger] pieces[i]).0 & 7u8 == 0 && pieces[i].1 == sq,
    decreases n,
{
    if n == 0 {
        lemma_bit_ops(0, 0, sq);
    } else {
        let prev = piece_boards(pieces, (n - 1) as nat);
        crate::full_threats::lemma_piece_boards_claimed(pieces, (n - 1) as nat);
        let (pc, s0) = pieces[n - 1];
        assert(pc & 7u8 < 6 && s0 < 64);
        let c: int = if pc & 8u8 > 0 { 1 } else { 0 };
        let pt: int = 2 + (pc & 7u8) as int;
        let bit = 1u64 << (s0 as u64);
        lemma_bit_ops(prev[2], bit, sq);
        lemma_bit_ops(prev[2] | bit, bit, sq);
        lemma_bit_ops(0, s0 as u64, sq);
        if bit_set(prev[2], sq) {
            lemma_pawn_board(pieces, (n - 1) as nat, sq);
            let i = choose|i: int| 0 <= i < n - 1 && (#[trigger] pieces[i]).0 & 7u8 == 0 && pieces[i].1 == sq;
            assert(pieces[i].0 & 7u8 == 0);
        } else {
            let wc = prev.update(c, prev[c] | bit);
            assert(piece_boards(pieces, n) == wc.update(pt, wc[pt] | bit));
            assert(wc[2] == prev[2]);
            assert(pt == 2);
            assert(sq == s0 as u64);
            assert(pieces[n - 1].0 & 7u8 == 0 && pieces[n - 1].1 == sq);
        }
    }
}

/// A position that chess allows: readable, and no pawn on the first or last rank.
pub open spec fn legal_position(pos: PackedBoard) -> bool {
    board_well_formed(pos) && pawns_inside(pos)
}

/// On a position that chess allows, every threat of either side maps within its piece's range.
pub proof fn lemma_legal_position_in_range(pos: PackedBoard)
    requires
        legal_position(pos),
    ensures
        threats_in_range(pos),
        legal_boards(position_boards(pos)),
{
    let pieces = pieces_of(pos.occ, pos.pcs@);
    crate::bitboard::lemma_set_bits_len(pos.occ, 64);
    assert forall|i: int| 0 <= i < pieces.len() implies (#[trigger] pieces[i]).0 & 7u8 < 6 && pieces[i].1 < 64 by {
        assert(crate::bitboard::squares_of(pos.occ)[i] < 64);
    }
    assert(pieces_valid(pieces));
    let bbs = position_boards(pos);
    crate::full_threats::lemma_piece_boards_claimed(pieces, pieces.len());
    lemma_piece_boards_covered(pieces);
    assert forall|sq: u64| sq < 64 && #[trigger] bit_set(bbs[2], sq) implies 8 <= sq < 56 by {
        lemma_pawn_board(pieces, pieces.len(), sq);
        let i = choose|i: int| 0 <= i < pieces.len() && (#[trigger] pieces[i]).0 & 7u8 == 0 && pieces[i].1 == sq;
        assert(pieces[i].0 & 7u8 == 0);
    }
    lemma_legal_oriented(bbs);
    lemma_bucket_threats_ok(oriented_boards(bbs));
    lemma_bucket_threats_ok(oriented_boards(swapped_boards(bbs)));
}

/// Whether a pawn threat maps within the pawn range.
fn pawn_threat_fits(src: usize, dest: usize, target: usize, enemy: bool) -> (r: bool)
    requires
        src < 64,
        dest < 64,
    ensures
        r == piece_threat_ok(2, src as nat, dest as nat, target as nat, enemy),
{
    if target >= 12 {
        return false;
    }
    let map = offset_mapping(&[Piece::PAWN, Piece::KNIGHT, Piece::ROOK]);
    proof {
        assert(map@[target as int] == offset_map(pawn_slots(), target as nat, 3));
    }
    if map[target] == usize::MAX || (enemy && dest > src && target_is(target, Piece::PAWN)) {
        return true;
    }
    if src < 8 {
        return false;
    }
    let up: usize = if dest > src { 1 } else { 0 };
    let diff = if dest > src { dest - src } else { src - dest };
    let id: usize = if diff == (if up == 0 { 9 } else { 7 }) { 0 } else { 1 };
    proof {
        assert(id == pawn_capture_side(src as nat, dest as nat));
        lemma_offset_map_bound(pawn_slots(), target as nat, 3);
    }
    if 2 * (src % 8) + id < 1 {
        return false;
    }
    let threat = map[target] * PAWN_INDICES + (src / 8 - 1) * 14 + (2 * (src % 8) + id - 1);
    threat < 6 * PAWN_INDICES
}

/// Whether every pawn threat of the boards maps within the pawn range.
fn pawn_threats_fit(bbs: &[u64; 8]) -> (r: bool)
    ensures
        r == pawn_threats_ok(bbs@),
{
    let codes = piece_codes(bbs);
    let occ = bbs[0] | bbs[1];
    let mut side: usize = 0;
    while side < 2
        invariant
            side <= 2,
            occ == bbs@[0] | bbs@[1],
            codes@.len() == 64,
            forall|sq: int| 0 <= sq < 64 ==> #[trigger] codes@[sq] == code_on(bbs@, sq as u64),
            forall|sd: nat, from: u64, k: int|
                sd < side && from < 64 && bit_set(bbs@[sd as int] & bbs@[2], from) && 0 <= k
                    < bucket_dest_list(bbs@, sd, 2, from).len() ==> #[trigger] pawn_dest_ok(bbs@, sd, from, k),
        decreases 2 - side,
    {
        let pawns = bbs[side] & bbs[Piece::PAWN];
        let froms = squares(pawns);
        let opps = bbs[1 - side];
        proof {
            lemma_set_bits_len(pawns, 64);
        }
        let mut fi: usize = 0;
        while fi < froms.len()
            invariant
                side < 2,
                occ == bbs@[0] | bbs@[1],
                opps == bbs@[(1 - side) as int],
                pawns == bbs@[side as int] & bbs@[2],
                froms@ == squares_of(pawns),
                fi <= froms@.len(),
                forall|j: int| 0 <= j < froms@.len() ==> #[trigger] froms@[j] < 64 && bit_set(pawns, froms@[j] as u64),
                codes@.len() == 64,
                forall|sq: int| 0 <= sq < 64 ==> #[trigger] codes@[sq] == code_on(bbs@, sq as u64),
                forall|sd: nat, from: u64, k: int|
                    sd < side && from < 64 && bit_set(bbs@[sd as int] & bbs@[2], from) && 0 <= k
                        < bucket_dest_list(bbs@, sd, 2, from).len() ==> #[trigger] pawn_dest_ok(bbs@, sd, from, k),
                forall|j: int, k: int|
                    0 <= j < fi && 0 <= k < bucket_dest_list(bbs@, side as nat, 2, froms@[j] as u64).len()
                        ==> #[trigger] pawn_dest_ok(bbs@, side as nat, froms@[j] as u64, k),
            decreases froms@.len() - fi,
        {
            let from = froms[fi];
            let targets = Attacks::pawn(from, side) & occ;
            let dests = squares(targets);
            proof {
                lemma_set_bits_len(targets, 64);
                assert(dests@ == bucket_dest_list(bbs@, side as nat, 2, from as u64));
                assert(froms@[fi as int] == from);
                assert(bit_set(pawns, from as u64));
            }
            let mut di: usize = 0;
            while di < dests.len()
                invariant
                    side < 2,
                    from < 64,
                    bit_set(pawns, from as u64),
                    pawns == bbs@[side as int] & bbs@[2],
                    opps == bbs@[(1 - side) as int],
                    dests@ == bucket_dest_list(bbs@, side as nat, 2, from as u64),
                    forall|k: int| 0 <= k < dests@.len() ==> #[trigger] dests@[k] < 64,
                    di <= dests@.len(),
                    codes@.len() == 64,
                    forall|sq: int| 0 <= sq < 64 ==> #[trigger] codes@[sq] == code_on(bbs@, sq as u64),
                    forall|k: int| 0 <= k < di ==> #[trigger] pawn_dest_ok(bbs@, side as nat, from as u64, k),
                decreases dests@.len() - di,
            {
                let dest = dests[di];
                proof {
                    lemma_single_bit_and(opps, dest as u64);
                }
                let enemy = (1u64 << dest) & opps > 0;
                if !pawn_threat_fits(from, dest, codes[dest], enemy) {
                    proof {
                        assert(!pawn_dest_ok(bbs@, side as nat, from as u64, di as int));
                        assert(bit_set(pawns, from as u64));
                    }
                    return false;
                }
                di += 1;
            }
            fi += 1;
        }
        proof {
            assert forall|sd: nat, from: u64, k: int|
                sd < side + 1 && from < 64 && bit_set(bbs@[sd as int] & bbs@[2], from) && 0 <= k
                    < bucket_dest_list(bbs@, sd, 2, from).len() implies #[trigger] pawn_dest_ok(bbs@, sd, from, k) by {
                if sd == side {
                    lemma_set_bits_complete(pawns, 64, from);
                    let j = choose|j: int| 0 <= j < froms@.len() && froms@[j] == from as usize;
                    assert(froms@[j] as u64 == from);
                }
            }
        }
        side += 1;
    }
    true
}

impl ThreatInputsBucketsMirrored {
    /// Whether every threat of the position, seen from either side, maps within its piece
    /// type's range.
    pub fn threats_fit(&self, pos: &PackedBoard) -> (r: bool)
        requires
            board_well_formed(*pos),
        ensures
            r == threats_in_range(*pos),
    {
        let pieces = pos.pieces();
        proof {
            crate::bitboard::lemma_set_bits_len(pos.occ, 64);
            assert forall|j: int| 0 <= j < pieces@.len() implies (#[trigger] pieces@[j]).1 < 64 && pieces@[j].0 & 7u8 < 6 by {
                assert(crate::bitboard::squares_of(pos.occ)[j] < 64);
            }
            let bbs = position_boards(*pos);
            crate::threat_balance::lemma_position_boards_consistent(*pos);
            crate::bucket_balance::lemma_oriented_count(bbs);
            crate::bucket_balance::lemma_swapped_count(bbs);
            crate::bucket_balance::lemma_oriented_count(swapped_boards(bbs));
            lemma_threats_ok_iff_pawns(oriented_boards(bbs));
            lemma_threats_ok_iff_pawns(oriented_boards(swapped_boards(bbs)));
        }
        let bbs = bitboards(&pieces);
        let stm_boards = orient_boards(bbs);
        let ntm_boards = orient_boards(swap_boards(bbs));
        pawn_threats_fit(&stm_boards) && pawn_threats_fit(&ntm_boards)
    }

    /// The number of threats of a position from the side to move and from the other side.
    pub fn threat_counts(&self, ix: &ThreatIndices, pos: &PackedBoard) -> (r: (usize, usize))
        requires
            ix.wf(),
            board_well_formed(*pos),
            threats_in_range(*pos),
        ensures
            r.0 == bucket_threats(oriented_boards(position_boards(*pos))).len(),
            r.1 == bucket_threats(oriented_boards(swapped_boards(position_boards(*pos)))).len(),
            r.0 == r.1,
    {
        proof {
            crate::bucket_balance::lemma_position_bucket_counts_agree(*pos);
        }
        let pieces = pos.pieces();
        proof {
            crate::bitboard::lemma_set_bits_len(pos.occ, 64);
            assert forall|j: int| 0 <= j < pieces@.len() implies (#[trigger] pieces@[j]).1 < 64 && pieces@[j].0 & 7u8 < 6 by {
                assert(crate::bitboard::squares_of(pos.occ)[j] < 64);
            }
            assert(pieces_valid(pieces@));
        }
        let bbs = bitboards(&pieces);
        let stm = map_features_bucketed(ix, bbs);
        let ntm = map_features_bucketed(ix, swap_boards(bbs));
        (stm.len(), ntm.len())
    }
}

} // verus!
