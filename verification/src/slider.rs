//! Sliding attacks: hyperbola quintessence for diagonals, shifted lookup for ranks and files.
use vstd::prelude::*;
use crate::bitboard::{bit_set, byte_swapped, swap_bytes, lemma_bit_ops, lemma_no_bits_is_zero};
use crate::geometry::{
    strictly_between, same_diagonal, same_anti_diagonal, bishop_sees, bishop_attacks,
    lemma_is_board_of, lemma_board_of, same_rank, same_file, rook_sees, rook_attacks,
    queen_attacks,
};
use vstd::std_specs::bits::{axiom_u64_trailing_zeros, axiom_u64_leading_zeros};

verus! {

/// The squares strictly between `s` and `t` (by square number).
pub open spec fn between_mask(s: u64, t: u64) -> u64 {
    if s < t {
        ((((1u64 << t) - 1u64) as u64) ^ (((1u64 << s) - 1u64) as u64)) ^ (1u64 << s)
    } else if t < s {
        ((((1u64 << s) - 1u64) as u64) ^ (((1u64 << t) - 1u64) as u64)) ^ (1u64 << t)
    } else {
        0
    }
}

pub open spec fn single_bit_byte(x: u64) -> bool {
    x & ((x - 1u64) as u64) == 0
}

/// At most one square of `l` on each rank.
pub open spec fn one_per_rank(l: u64) -> bool {
    &&& single_bit_byte(l & 0xffu64)
    &&& single_bit_byte((l >> 8u64) & 0xffu64)
    &&& single_bit_byte((l >> 16u64) & 0xffu64)
    &&& single_bit_byte((l >> 24u64) & 0xffu64)
    &&& single_bit_byte((l >> 32u64) & 0xffu64)
    &&& single_bit_byte((l >> 40u64) & 0xffu64)
    &&& single_bit_byte((l >> 48u64) & 0xffu64)
    &&& single_bit_byte((l >> 56u64) & 0xffu64)
}

pub open spec fn hyperbola(o: u64, bs: u64, d: u64) -> u64 {
    (((o - bs) as u64) ^ byte_swapped(((byte_swapped(o) - byte_swapped(bs)) as u64))) & d
}

proof fn lemma_hyperbola(occ: u64, d: u64, s: u64, t: u64)
    by (bit_vector)
    requires
        s < 64,
        t < 64,
        d & (1u64 << s) == 0,
        one_per_rank(d | (1u64 << s)),
    ensures
        bit_set(hyperbola(occ & d, 1u64 << s, d), t) == (bit_set(d, t) && (occ & d & between_mask(s, t)) == 0),
{
}

/// The fifteen diagonals towards h8, numbered by `7 + file - rank`.
pub open spec fn diagonal(k: u64) -> u64 {
    if k == 0 {
        0x0100_0000_0000_0000u64
    } else if k == 1 {
        0x0201_0000_0000_0000u64
    } else if k == 2 {
        0x0402_0100_0000_0000u64
    } else if k == 3 {
        0x0804_0201_0000_0000u64
    } else if k == 4 {
        0x1008_0402_0100_0000u64
    } else if k == 5 {
        0x2010_0804_0201_0000u64
    } else if k == 6 {
        0x4020_1008_0402_0100u64
    } else if k == 7 {
        0x8040_2010_0804_0201u64
    } else if k == 8 {
        0x0080_4020_1008_0402u64
    } else if k == 9 {
        0x0000_8040_2010_0804u64
    } else if k == 10 {
        0x0000_0080_4020_1008u64
    } else if k == 11 {
        0x0000_0000_8040_2010u64
    } else if k == 12 {
        0x0000_0000_0080_4020u64
    } else if k == 13 {
        0x0000_0000_0000_8040u64
    } else {
        0x0000_0000_0000_0080u64
    }
}

/// The diagonal table.
fn diagonal_line(k: usize) -> (r: u64)
    requires
        k < 15,
    ensures
        r == diagonal(k as u64),
{
    match k {
        0 => 0x0100_0000_0000_0000,
        1 => 0x0201_0000_0000_0000,
        2 => 0x0402_0100_0000_0000,
        3 => 0x0804_0201_0000_0000,
        4 => 0x1008_0402_0100_0000,
        5 => 0x2010_0804_0201_0000,
        6 => 0x4020_1008_0402_0100,
        7 => 0x8040_2010_0804_0201,
        8 => 0x0080_4020_1008_0402,
        9 => 0x0000_8040_2010_0804,
        10 => 0x0000_0080_4020_1008,
        11 => 0x0000_0000_8040_2010,
        12 => 0x0000_0000_0080_4020,
        13 => 0x0000_0000_0000_8040,
        _ => 0x0000_0000_0000_0080,
    }
}

/// The two line masks through `s` (without `s`), as the table gives them.
proof fn lemma_diagonal_masks(s: u64, t: u64)
    by (bit_vector)
    requires
        s < 64,
        t < 64,
    ensures
        ({
            let bs = 1u64 << s;
            let d = bs ^ diagonal((7 + s % 8 - s / 8) as u64);
            &&& d & bs == 0
            &&& one_per_rank(d | bs)
            &&& bit_set(d, t) == (t != s && same_diagonal(s, t))
        }),
        ({
            let bs = 1u64 << s;
            let a = bs ^ byte_swapped(diagonal((s % 8 + s / 8) as u64));
            &&& a & bs == 0
            &&& one_per_rank(a | bs)
            &&& bit_set(a, t) == (t != s && same_anti_diagonal(s, t))
        }),
{
}

proof fn lemma_between_mask(s: u64, t: u64, u: u64)
    by (bit_vector)
    requires
        s < 64,
        t < 64,
        u < 64,
    ensures
        bit_set(between_mask(s, t), u) == strictly_between(s, t, u),
{
}

proof fn lemma_wrapping_sub(x: u64, y: u64)
    by (bit_vector)
    ensures
        x.wrapping_sub(y) == ((x - y) as u64),
{
}

/// Masks for the hyperbola quintessence on the two diagonals through a square.
#[derive(Clone, Copy)]
struct Mask {
    bit: u64,
    diag: u64,
    anti: u64,
    swap: u64,
}

fn bishop_mask(sq: usize) -> (m: Mask)
    requires
        sq < 64,
    ensures
        m.bit == 1u64 << (sq as u64),
        m.diag == m.bit ^ diagonal((7 + (sq as u64) % 8 - (sq as u64) / 8) as u64),
        m.anti == m.bit ^ byte_swapped(diagonal(((sq as u64) % 8 + (sq as u64) / 8) as u64)),
        m.swap == byte_swapped(m.bit),
{
    let bit = 1u64 << sq;
    let file = sq & 7;
    let rank = sq / 8;
    proof {
        assert(file == sq % 8) by (bit_vector)
            requires file == sq & 7usize;
    }
    Mask {
        bit,
        diag: bit ^ diagonal_line(7 + file - rank),
        anti: bit ^ swap_bytes(diagonal_line(file + rank)),
        swap: swap_bytes(bit),
    }
}

/// How the line-clearance test reads on bits.
proof fn lemma_clear_line(occ: u64, d: u64, s: u64, t: u64, on_line: spec_fn(u64) -> bool)
    requires
        s < 64,
        t < 64,
        forall|u: u64| u < 64 ==> #[trigger] bit_set(d, u) == (u != s && on_line(u)),
    ensures
        ((occ & d & between_mask(s, t)) == 0) == (forall|u: u64|
            u < 64 && on_line(u) && strictly_between(s, t, u) ==> !#[trigger] bit_set(occ, u)),
{
    let x = occ & d & between_mask(s, t);
    assert forall|u: u64| u < 64 implies #[trigger] bit_set(x, u) == (bit_set(occ, u) && u != s
        && on_line(u) && strictly_between(s, t, u)) by {
        lemma_bit_ops(occ & d, between_mask(s, t), u);
        lemma_bit_ops(occ, d, u);
        lemma_between_mask(s, t, u);
    }
    if forall|u: u64| u < 64 && on_line(u) && strictly_between(s, t, u) ==> !#[trigger] bit_set(occ, u) {
        assert forall|u: u64| u < 64 implies !#[trigger] bit_set(x, u) by {
            assert(bit_set(x, u) == (bit_set(occ, u) && u != s && on_line(u) && strictly_between(s, t, u)));
        }
        lemma_no_bits_is_zero(x);
    } else {
        let u = choose|u: u64| u < 64 && on_line(u) && strictly_between(s, t, u) && #[trigger] bit_set(occ, u);
        assert(bit_set(x, u));
        lemma_bit_ops(0u64, 0u64, u);
    }
}

/// The squares a bishop on `sq` attacks, `occ` being the occupied squares.
pub fn bishop_squares(sq: usize, occ: u64) -> (r: u64)
    requires
        sq < 64,
    ensures
        r == bishop_attacks(sq as u64, occ),
{
    let mask = bishop_mask(sq);

    let mut diag = occ & mask.diag;
    let mut rev1 = swap_bytes(diag);
    diag = diag.wrapping_sub(mask.bit);
    rev1 = rev1.wrapping_sub(mask.swap);
    diag ^= swap_bytes(rev1);
    diag &= mask.diag;

    let mut anti = occ & mask.anti;
    let mut rev2 = swap_bytes(anti);
    anti = anti.wrapping_sub(mask.bit);
    rev2 = rev2.wrapping_sub(mask.swap);
    anti ^= swap_bytes(rev2);
    anti &= mask.anti;

    let r = diag | anti;
    proof {
        let s = sq as u64;
        let bs = mask.bit;
        lemma_wrapping_sub(occ & mask.diag, bs);
        lemma_wrapping_sub(byte_swapped(occ & mask.diag), mask.swap);
        lemma_wrapping_sub(occ & mask.anti, bs);
        lemma_wrapping_sub(byte_swapped(occ & mask.anti), mask.swap);
        assert(diag == hyperbola(occ & mask.diag, bs, mask.diag));
        assert(anti == hyperbola(occ & mask.anti, bs, mask.anti));
        assert forall|t: u64| t < 64 implies #[trigger] bit_set(r, t) == bishop_sees(s, t, occ) by {
            lemma_diagonal_masks(s, t);
            assert forall|u: u64| u < 64 implies #[trigger] bit_set(mask.diag, u) == (u != s && same_diagonal(s, u)) by {
                lemma_diagonal_masks(s, u);
            }
            assert forall|u: u64| u < 64 implies #[trigger] bit_set(mask.anti, u) == (u != s && same_anti_diagonal(s, u)) by {
                lemma_diagonal_masks(s, u);
            }
            lemma_hyperbola(occ, mask.diag, s, t);
            lemma_hyperbola(occ, mask.anti, s, t);
            lemma_clear_line(occ, mask.diag, s, t, |u: u64| same_diagonal(s, u));
            lemma_clear_line(occ, mask.anti, s, t, |u: u64| same_anti_diagonal(s, u));
            lemma_bit_ops(diag, anti, t);
        }
        lemma_is_board_of(r, |t: u64| bishop_sees(s, t, occ));
    }
    r
}

/// The squares west of `i` on its rank.
pub open spec fn west_of(i: u64) -> u64 {
    (0xffu64 << (i & 56u64)) & (((1u64 << i) - 1u64) as u64)
}

/// The squares east of `i` on its rank.
pub open spec fn east_of(i: u64) -> u64 {
    (0xffu64 << (i & 56u64)) ^ (1u64 << i) ^ west_of(i)
}

proof fn shift_facts(i: u64)
    by (bit_vector)
    requires
        i < 64,
    ensures
        i & 56u64 < 64,
        1u64 << i >= 1,
        (i & 7u64) == i % 8,
        i - (i & 7u64) == 8 * (i / 8),
{
}

fn west(i: usize) -> (r: u64)
    requires
        i < 64,
    ensures
        r == west_of(i as u64),
{
    proof {
        shift_facts(i as u64);
    }
    (0xFFu64 << (i & 56)) & ((1u64 << i) - 1)
}

fn east(i: usize) -> (r: u64)
    requires
        i < 64,
    ensures
        r == east_of(i as u64),
{
    proof {
        shift_facts(i as u64);
    }
    (0xFFu64 << (i & 56)) ^ (1u64 << i) ^ west(i)
}

/// The attacks along one line of eight squares from `x`, given the inner occupancy `o`
/// (bit `k` of `o` for square `k + 1`) and the nearest blockers `e` (east) and `63 - l` (west).
proof fn lemma_line(x: u64, o: u64, e: u64, l: u64, j: u64)
    by (bit_vector)
    requires
        x < 8,
        o < 64,
        e < 64,
        l < 64,
        j < 64,
        ((((east_of(x) & (o << 1u64)) | 0x8000_0000_0000_0000u64) >> e) & 1u64) == 1u64,
        ((east_of(x) & (o << 1u64)) | 0x8000_0000_0000_0000u64) << ((64 - e) as u64) == 0,
        ((((west_of(x) & (o << 1u64)) | 1u64) >> ((63 - l) as u64)) & 1u64) != 0,
        ((west_of(x) & (o << 1u64)) | 1u64) >> ((64 - l) as u64) == 0,
    ensures
        bit_set(east_of(x) ^ east_of(e) | west_of(x) ^ west_of(l ^ 63u64), j) == (j < 8 && j != x
            && ((o << 1u64) & between_mask(x, j)) == 0),
        (east_of(x) ^ east_of(e) | west_of(x) ^ west_of(l ^ 63u64)) < 256,
{
}

/// Attacks along a line of eight squares from `x`, bit `k` of `o` standing for square `k + 1`.
pub open spec fn line_attacks(x: u64, o: u64) -> u64 {
    board_of_line(x, o)
}

pub open spec fn line_sees(x: u64, o: u64, j: u64) -> bool {
    j < 8 && j != x && ((o << 1u64) & between_mask(x, j)) == 0
}

pub open spec fn board_of_line(x: u64, o: u64) -> u64 {
    crate::geometry::board_of(|j: u64| line_sees(x, o, j))
}

/// The attacks along the rank of `sq`, `occ` holding the occupancy of the six inner squares
/// of that rank.
fn rank_line(sq: usize, occ: u64) -> (r: u64)
    requires
        sq < 64,
        occ < 64,
    ensures
        r == line_attacks((sq % 8) as u64, occ) << ((sq - sq % 8) as u64),
        line_attacks((sq % 8) as u64, occ) < 256,
{
    proof {
        shift_facts(sq as u64);
    }
    let file = sq & 7;
    let mask = occ << 1;
    let ve = (east(file) & mask) | (1u64 << 63);
    let vw = (west(file) & mask) | 1;
    proof {
        assert(ve != 0 && vw != 0) by (bit_vector)
            requires ve == (east_of(file as u64) & mask) | (1u64 << 63u64), vw == (west_of(file as u64) & mask) | 1u64;
        axiom_u64_trailing_zeros(ve);
        axiom_u64_leading_zeros(vw);
    }
    let e = ve.trailing_zeros() as usize;
    let lz = vw.leading_zeros() as usize;
    let w = lz ^ 63;
    proof {
        assert(w < 64) by (bit_vector)
            requires lz < 64usize, w == lz ^ 63usize;
    }
    let line = east(file) ^ east(e) | west(file) ^ west(w);
    proof {
        let x = file as u64;
        assert((1u64 << 63u64) == 0x8000_0000_0000_0000u64) by (bit_vector);
        assert(w as u64 == (lz as u64) ^ 63u64) by (bit_vector)
            requires lz < 64usize, w == lz ^ 63usize;
        assert forall|j: u64| j < 64 implies #[trigger] bit_set(line, j) == line_sees(x, occ, j) by {
            lemma_line(x, occ, e as u64, lz as u64, j);
        }
        lemma_line(x, occ, e as u64, lz as u64, 0);
        lemma_is_board_of(line, |j: u64| line_sees(x, occ, j));
    }
    line << (sq - file)
}

proof fn lemma_wrapping_mul(x: u64, y: u64)
    by (bit_vector)
    ensures
        x.wrapping_mul(y) == ((x * y) as u64),
{
}

/// Squares of a line of eight, laid onto file `f` with line square `k` on rank `7 - k`.
proof fn lemma_file_deposit(l: u64, f: u64, t: u64)
    by (bit_vector)
    requires
        l < 256,
        f < 8,
        t < 64,
    ensures
        bit_set((((l * 0x8040_2010_0804_0201u64) as u64) & 0x8080_8080_8080_8080u64) >> ((7 - f) as u64), t)
            == (t % 8 == f && bit_set(l, (7 - t / 8) as u64)),
{
}

/// The rank occupancy read by the lookup stands for the squares between `s` and `t`.
proof fn lemma_rank_occupancy(occ: u64, s: u64, t: u64, u: u64)
    by (bit_vector)
    requires
        s < 64,
        t < 64,
        u < 64,
        t / 8 == s / 8,
    ensures
        ((((occ >> ((s - (s & 7u64) + 1) as u64)) & 0x3fu64) << 1u64) & between_mask(s % 8, t % 8))
            == 0 <==> (occ & ((0xffu64 << ((s - (s & 7u64)) as u64)) ^ (1u64 << s)) & between_mask(s, t)) == 0,
        bit_set((0xffu64 << ((s - (s & 7u64)) as u64)) ^ (1u64 << s), u) == (u != s && u / 8 == s / 8),
{
}

/// The file occupancy gathered by the multiplication stands for the squares between `s` and `t`.
proof fn lemma_file_occupancy(occ: u64, s: u64, t: u64, u: u64)
    by (bit_vector)
    requires
        s < 64,
        t < 64,
        u < 64,
        t % 8 == s % 8,
    ensures
        ({
            let fs = ((((occ >> (s & 7u64)) & 0x0101_0101_0101_0101u64) * 0x8040_2010_0804_0201u64) as u64 >> 57u64) & 0x3fu64;
            &&& fs < 64
            &&& ((fs << 1u64) & between_mask((7 - s / 8) as u64, (7 - t / 8) as u64)) == 0
                <==> (occ & ((0x0101_0101_0101_0101u64 << (s % 8)) ^ (1u64 << s)) & between_mask(s, t)) == 0
        }),
        bit_set((0x0101_0101_0101_0101u64 << (s % 8)) ^ (1u64 << s), u) == (u != s && u % 8 == s % 8),
{
}

/// The main diagonal a1-h8, whose multiplication transposes a file onto a rank and back.
pub const DIAG: u64 = 0x8040_2010_0804_0201;

/// The attacks along the file of `sq`, `occ` holding the occupancy of the six inner squares
/// of that file from rank 7 down to rank 2.
fn file_line(sq: usize, occ: u64) -> (r: u64)
    requires
        sq < 64,
        occ < 64,
    ensures
        forall|t: u64| t < 64 ==> #[trigger] bit_set(r, t) == (t % 8 == sq % 8 && line_sees(
            (7 - sq / 8) as u64,
            occ,
            (7 - t / 8) as u64,
        )),
{
    proof {
        shift_facts(sq as u64);
    }
    let l = rank_line(7 - sq / 8, occ);
    let r = (l.wrapping_mul(DIAG) & 0x8080_8080_8080_8080) >> (7 - (sq & 7));
    proof {
        let x = (7 - sq / 8) as u64;
        assert(l == line_attacks(x, occ)) by {
            lemma_bit_ops(line_attacks(x, occ), 0, 0);
            assert(line_attacks(x, occ) << 0u64 == line_attacks(x, occ)) by (bit_vector);
        }
        lemma_wrapping_mul(l, DIAG);
        assert forall|t: u64| t < 64 implies #[trigger] bit_set(r, t) == (t % 8 == sq % 8 && line_sees(x, occ, (7 - t / 8) as u64)) by {
            lemma_file_deposit(l, (sq % 8) as u64, t);
            lemma_board_of(|j: u64| line_sees(x, occ, j), (7 - t / 8) as u64);
        }
    }
    r
}

/// The squares a rook on `sq` attacks, `occ` being the occupied squares.
pub fn rook_squares(sq: usize, occ: u64) -> (r: u64)
    requires
        sq < 64,
    ensures
        r == rook_attacks(sq as u64, occ),
{
    proof {
        shift_facts(sq as u64);
    }
    let flip = ((occ >> (sq & 7)) & 0x0101_0101_0101_0101u64).wrapping_mul(DIAG);
    let file_sq = (flip >> 57) & 0x3F;
    proof {
        lemma_wrapping_mul((occ >> (sq & 7)) & 0x0101_0101_0101_0101u64, DIAG);
        lemma_file_occupancy(occ, sq as u64, sq as u64, 0);
    }
    let files = file_line(sq, file_sq);

    let rank_sq = (occ >> (sq - (sq & 7) + 1)) & 0x3F;
    proof {
        assert(rank_sq < 64) by (bit_vector)
            requires rank_sq == (occ >> ((sq - (sq & 7usize) + 1) as u64)) & 0x3fu64;
    }
    let ranks = rank_line(sq, rank_sq);
    let r = ranks | files;
    proof {
        let s = sq as u64;
        let f = s % 8;
        let lr = line_attacks(f, rank_sq);
        let dr = (0xffu64 << ((s - (s & 7u64)) as u64)) ^ (1u64 << s);
        let df = (0x0101_0101_0101_0101u64 << (s % 8)) ^ (1u64 << s);
        assert forall|u: u64| u < 64 implies #[trigger] bit_set(dr, u) == (u != s && same_rank(s, u)) by {
            lemma_rank_occupancy(occ, s, s, u);
        }
        assert forall|u: u64| u < 64 implies #[trigger] bit_set(df, u) == (u != s && same_file(s, u)) by {
            lemma_file_occupancy(occ, s, s, u);
        }
        assert forall|t: u64| t < 64 implies #[trigger] bit_set(r, t) == rook_sees(s, t, occ) by {
            lemma_bit_ops(ranks, files, t);
            lemma_bit_ops(lr, (s - s % 8) as u64, t);
            lemma_clear_line(occ, dr, s, t, |u: u64| same_rank(s, u));
            lemma_clear_line(occ, df, s, t, |u: u64| same_file(s, u));
            if t >= s - s % 8 && t - (s - s % 8) < 64 {
                lemma_board_of(|j: u64| line_sees(f, rank_sq, j), (t - (s - s % 8)) as u64);
            }
            if t / 8 == s / 8 {
                lemma_rank_occupancy(occ, s, t, 0);
            }
            if t % 8 == s % 8 {
                lemma_file_occupancy(occ, s, t, 0);
            }
            assert(bit_set(lr, (t - (s - s % 8)) as u64) ==> t - (s - s % 8) < 8);
        }
        lemma_is_board_of(r, |t: u64| rook_sees(s, t, occ));
    }
    r
}

/// The squares a queen on `sq` attacks, `occ` being the occupied squares.
pub fn queen_squares(sq: usize, occ: u64) -> (r: u64)
    requires
        sq < 64,
    ensures
        r == queen_attacks(sq as u64, occ),
{
    let b = bishop_squares(sq, occ);
    let q = b | rook_squares(sq, occ);
    proof {
        assert forall|t: u64| t < 64 implies #[trigger] bit_set(q, t) == (rook_sees(sq as u64, t, occ) || bishop_sees(sq as u64, t, occ)) by {
            lemma_bit_ops(b, rook_attacks(sq as u64, occ), t);
            lemma_board_of(|t: u64| rook_sees(sq as u64, t, occ), t);
            lemma_board_of(|t: u64| bishop_sees(sq as u64, t, occ), t);
        }
        lemma_is_board_of(q, |t: u64| rook_sees(sq as u64, t, occ) || bishop_sees(sq as u64, t, occ));
    }
    q
}

} // verus!
