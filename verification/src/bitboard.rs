//! Bitboards: a `u64` whose bit `s` stands for square `s` (a1 = 0, h8 = 63).
use vstd::prelude::*;
use vstd::std_specs::bits::{u64_trailing_zeros, axiom_u64_trailing_zeros};

verus! {

/// Whether square `t` is set in bitboard `b`.
pub open spec fn bit_set(b: u64, t: u64) -> bool {
    (b >> t) & 1u64 == 1u64
}

/// Number of set squares of `b` among squares `0..n`.
pub open spec fn count_below(b: u64, n: nat) -> nat
    decreases n,
{
    if n == 0 {
        0
    } else {
        count_below(b, (n - 1) as nat) + if bit_set(b, (n - 1) as u64) { 1nat } else { 0nat }
    }
}

/// Number of set squares of `b`.
pub open spec fn popcount(b: u64) -> nat {
    count_below(b, 64)
}

/// The set squares of `b` below `n`, in increasing order.
pub open spec fn set_bits(b: u64, n: nat) -> Seq<usize>
    decreases n,
{
    if n == 0 {
        Seq::empty()
    } else if bit_set(b, (n - 1) as u64) {
        set_bits(b, (n - 1) as nat).push((n - 1) as usize)
    } else {
        set_bits(b, (n - 1) as nat)
    }
}

/// The set squares of `b`, in increasing order.
pub open spec fn squares_of(b: u64) -> Seq<usize> {
    set_bits(b, 64)
}

/// How the bitwise operators act on single squares.
pub proof fn lemma_bit_ops(a: u64, b: u64, t: u64)
    by (bit_vector)
    requires
        t < 64,
    ensures
        bit_set(a & b, t) == (bit_set(a, t) && bit_set(b, t)),
        bit_set(a | b, t) == (bit_set(a, t) || bit_set(b, t)),
        bit_set(a ^ b, t) == (bit_set(a, t) != bit_set(b, t)),
        bit_set(!a, t) == !bit_set(a, t),
        b < 64 ==> (bit_set(1u64 << b, t) == (b == t)),
        !bit_set(0u64, t),
        b < 64 ==> (bit_set(a << b, t) == (t >= b && bit_set(a, (t - b) as u64))),
        b < 64 ==> (bit_set(a >> b, t) == (t + b < 64 && bit_set(a, (t + b) as u64))),
        b < 64 ==> (bit_set(a & ((1u64 << b) - 1u64) as u64, t) == (t < b && bit_set(a, t))),
{
}

/// A bitboard with no set square is empty.
pub proof fn lemma_no_bits_is_zero(a: u64)
    requires
        forall|t: u64| t < 64 ==> !#[trigger] bit_set(a, t),
    ensures
        a == 0,
{
    axiom_u64_trailing_zeros(a);
    if a != 0 {
        let z = u64_trailing_zeros(a) as u64;
        assert(bit_set(a, z));
    }
}

/// Two bitboards with the same squares are equal.
pub proof fn lemma_bit_ext(a: u64, b: u64)
    requires
        forall|t: u64| t < 64 ==> #[trigger] bit_set(a, t) == bit_set(b, t),
    ensures
        a == b,
{
    assert forall|t: u64| t < 64 implies !#[trigger] bit_set(a ^ b, t) by {
        lemma_bit_ops(a, b, t);
    }
    lemma_no_bits_is_zero(a ^ b);
    assert(a ^ b == 0 ==> a == b) by (bit_vector);
}

/// Counting agrees on bitboards that agree below `n`.
pub proof fn lemma_count_below_agree(x: u64, y: u64, n: nat)
    requires
        n <= 64,
        forall|u: u64| u < n ==> #[trigger] bit_set(x, u) == bit_set(y, u),
    ensures
        count_below(x, n) == count_below(y, n),
    decreases n,
{
    if n > 0 {
        lemma_count_below_agree(x, y, (n - 1) as nat);
        assert(bit_set(x, (n - 1) as u64) == bit_set(y, (n - 1) as u64));
    }
}

/// No set square in `p..n` leaves the count unchanged.
pub proof fn lemma_count_below_gap(x: u64, p: nat, n: nat)
    requires
        p <= n <= 64,
        forall|u: u64| p <= u < n ==> !#[trigger] bit_set(x, u),
    ensures
        count_below(x, n) == count_below(x, p),
        set_bits(x, n) == set_bits(x, p),
    decreases n,
{
    if n > p {
        lemma_count_below_gap(x, p, (n - 1) as nat);
        assert(!bit_set(x, (n - 1) as u64));
    }
}

/// Counting is monotone in the bound.
pub proof fn lemma_count_below_mono(x: u64, m: nat, n: nat)
    requires
        m <= n,
    ensures
        count_below(x, m) <= count_below(x, n),
        count_below(x, n) <= n,
    decreases n,
{
    if n > 0 {
        if m < n {
            lemma_count_below_mono(x, m, (n - 1) as nat);
        } else {
            lemma_count_below_mono(x, (n - 1) as nat, (n - 1) as nat);
        }
    }
}

/// The count of set squares below a set square is less than the total.
pub proof fn lemma_count_below_lt_total(x: u64, t: u64)
    requires
        t < 64,
        bit_set(x, t),
    ensures
        count_below(x, t as nat) < popcount(x),
{
    lemma_count_below_mono(x, (t + 1) as nat, 64);
}

/// The squares below `t` of `x`, counted, are the set squares of `x` masked to `0..t`.
pub proof fn lemma_popcount_masked(x: u64, t: u64)
    requires
        t < 64,
    ensures
        popcount(x & ((1u64 << t) - 1u64) as u64) == count_below(x, t as nat),
{
    let m = x & ((1u64 << t) - 1u64) as u64;
    assert forall|u: u64| u < t implies #[trigger] bit_set(m, u) == bit_set(x, u) by {
        lemma_bit_ops(x, t, u);
    }
    assert forall|u: u64| t <= u < 64 implies !#[trigger] bit_set(m, u) by {
        lemma_bit_ops(x, t, u);
    }
    lemma_count_below_agree(m, x, t as nat);
    lemma_count_below_gap(m, t as nat, 64);
}

/// The number of listed squares is the count.
pub proof fn lemma_set_bits_len(x: u64, n: nat)
    requires
        n <= 64,
    ensures
        set_bits(x, n).len() == count_below(x, n),
        forall|i: int| 0 <= i < set_bits(x, n).len() ==> {
            &&& #[trigger] set_bits(x, n)[i] < n
            &&& bit_set(x, set_bits(x, n)[i] as u64)
        },
        forall|i: int, j: int|
            0 <= i < j < set_bits(x, n).len() ==> #[trigger] set_bits(x, n)[i] < #[trigger] set_bits(
                x,
                n,
            )[j],
    decreases n,
{
    if n > 0 {
        let prev = set_bits(x, (n - 1) as nat);
        lemma_set_bits_len(x, (n - 1) as nat);
        if bit_set(x, (n - 1) as u64) {
            let cur = prev.push((n - 1) as usize);
            assert(set_bits(x, n) == cur);
            assert forall|i: int| 0 <= i < cur.len() implies {
                &&& #[trigger] cur[i] < n
                &&& bit_set(x, cur[i] as u64)
            } by {
                if i < prev.len() {
                    assert(cur[i] == prev[i]);
                }
            }
            assert forall|i: int, j: int| 0 <= i < j < cur.len() implies #[trigger] cur[i] < #[trigger] cur[j] by {
                assert(cur[i] == prev[i]);
                if j < prev.len() {
                    assert(cur[j] == prev[j]);
                }
            }
        }
    }
}

/// Every set square below `n` is listed.
pub proof fn lemma_set_bits_complete(x: u64, n: nat, t: u64)
    requires
        t < n <= 64,
        bit_set(x, t),
    ensures
        set_bits(x, n).contains(t as usize),
    decreases n,
{
    if t < n - 1 {
        lemma_set_bits_complete(x, (n - 1) as nat, t);
        if bit_set(x, (n - 1) as u64) {
            assert(set_bits(x, n) == set_bits(x, (n - 1) as nat).push((n - 1) as usize));
            let i = choose|i: int| 0 <= i < set_bits(x, (n - 1) as nat).len() && #[trigger] set_bits(x, (n - 1) as nat)[i] == t as usize;
            assert(set_bits(x, n)[i] == t as usize);
        }
    } else {
        assert(set_bits(x, n).last() == t as usize);
    }
}

/// The lowest set square cleared: `b & (b - 1)`.
proof fn lemma_clear_lowest(b: u64, s: u64)
    by (bit_vector)
    requires
        s < 64,
        (b >> s) & 1u64 == 1u64,
        b << ((64 - s) as u64) == 0,
    ensures
        b & ((b - 1) as u64) == b ^ (1u64 << s),
        b & ((b - 1) as u64) < b,
{
}

/// The squares of `bb`, in increasing order.
pub fn squares(bb: u64) -> (r: Vec<usize>)
    ensures
        r@ == squares_of(bb),
{
    let mut v: Vec<usize> = Vec::new();
    let mut b = bb;
    let ghost mut p: nat = 0;
    while b > 0
        invariant
            p <= 64,
            v@ == set_bits(bb, p),
            forall|t: u64| t < 64 ==> #[trigger] bit_set(b, t) == (t >= p && bit_set(bb, t)),
        decreases b,
    {
        let sq = b.trailing_zeros();
        proof {
            axiom_u64_trailing_zeros(b);
            assert forall|u: u64| p <= u < sq implies !#[trigger] bit_set(bb, u) by {
                assert(bit_set(b, u) == (u >= p && bit_set(bb, u)));
            }
            assert(bit_set(b, sq as u64));
            lemma_count_below_gap(bb, p, sq as nat);
            assert(bit_set(bb, sq as u64));
            lemma_clear_lowest(b, sq as u64);
        }
        v.push(sq as usize);
        let ghost old_b = b;
        b = b & (b - 1);
        proof {
            assert(set_bits(bb, (sq + 1) as nat) == set_bits(bb, sq as nat).push(sq as usize));
            p = (sq + 1) as nat;
            assert forall|t: u64| t < 64 implies #[trigger] bit_set(b, t) == (t >= p && bit_set(bb, t)) by {
                lemma_bit_ops(old_b, sq as u64, t);
                lemma_bit_ops(old_b, 1u64 << sq, t);
                assert(bit_set(old_b, t) == (t >= (p - 1) && bit_set(bb, t)));
            }
        }
    }
    proof {
        assert forall|u: u64| p <= u < 64 implies !#[trigger] bit_set(bb, u) by {
            assert(bit_set(b, u) == (u >= p && bit_set(bb, u)));
            lemma_bit_ops(b, 0, u);
        }
        lemma_count_below_gap(bb, p, 64);
    }
    v
}

/// `x` with its eight bytes in reverse order: rank `r` moves to rank `7 - r`.
pub open spec fn byte_swapped(x: u64) -> u64 {
    (x << 56u64) | ((x << 40u64) & 0x00ff_0000_0000_0000u64) | ((x << 24u64)
        & 0x0000_ff00_0000_0000u64) | ((x << 8u64) & 0x0000_00ff_0000_0000u64) | ((x >> 8u64)
        & 0x0000_0000_ff00_0000u64) | ((x >> 24u64) & 0x0000_0000_00ff_0000u64) | ((x >> 40u64)
        & 0x0000_0000_0000_ff00u64) | (x >> 56u64)
}

/// Byte reversal mirrors the board vertically: square `t` takes the value of square `t ^ 56`.
pub proof fn lemma_byte_swapped_bits(x: u64, t: u64)
    by (bit_vector)
    requires
        t < 64,
    ensures
        bit_set(byte_swapped(x), t) == bit_set(x, t ^ 56u64),
        t ^ 56u64 < 64,
{
}

/// `u64::count_ones`: the number of ones in the binary representation.
#[verifier::external_body]
pub(crate) fn count_ones(x: u64) -> (r: u32)
    ensures
        r == popcount(x),
{
    x.count_ones()
}

/// `u64::swap_bytes`: reverses the byte order of the integer.
#[verifier::external_body]
pub(crate) fn swap_bytes(x: u64) -> (r: u64)
    ensures
        r == byte_swapped(x),
{
    x.swap_bytes()
}

/// A bitboard with no set square counted is empty.
pub proof fn lemma_popcount_zero(x: u64)
    requires
        popcount(x) == 0,
    ensures
        x == 0,
{
    assert forall|t: u64| t < 64 implies !#[trigger] bit_set(x, t) by {
        if bit_set(x, t) {
            lemma_count_below_lt_total(x, t);
        }
    }
    lemma_no_bits_is_zero(x);
}

} // verus!
