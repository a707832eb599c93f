//! Natural numbers seen as strings of bits.
//!
//! Every statement about a packed block is made one bit at a time, over
//! [`bit`]. The lemmas here tie that view back to the numbers themselves.
use vstd::arithmetic::div_mod::{
    lemma_basic_div, lemma_div_denominator, lemma_fundamental_div_mod,
    lemma_fundamental_div_mod_converse, lemma_mod_bound, lemma_mod_breakdown, lemma_mod_mod,
};
use vstd::arithmetic::power2::{
    lemma_pow2_adds, lemma_pow2_pos, lemma_pow2_strictly_increases, lemma_pow2_unfold, pow2,
};
use vstd::prelude::*;

verus! {

/// Bit `k` of the number `x`. Bit 0 is the least significant one; there is no
/// bit at a negative position.
#[verifier::opaque]
pub open spec fn bit(x: nat, k: int) -> bool {
    k >= 0 && (x / pow2(k as nat)) % 2 == 1
}

/// `x` can be written with `n` bits.
pub open spec fn fits(x: nat, n: int) -> bool {
    n >= 0 && x < pow2(n as nat)
}

/// No bit of zero is set.
pub proof fn lemma_bit_of_zero(k: int)
    ensures
        !bit(0, k),
{
    reveal(bit);
    if k >= 0 {
        lemma_pow2_pos(k as nat);
        lemma_basic_div(0, pow2(k as nat) as int);
    }
}

/// A number of `n` bits has no bit set at position `n` or above.
pub proof fn lemma_bit_above(x: nat, n: int, k: int)
    requires
        fits(x, n),
        n <= k,
    ensures
        !bit(x, k),
{
    reveal(bit);
    if n < k {
        lemma_pow2_strictly_increases(n as nat, k as nat);
    }
    lemma_basic_div(x as int, pow2(k as nat) as int);
}

/// `2^0` is 1.
proof fn lemma_pow2_of_zero()
    ensures
        pow2(0) == 1,
{
    reveal(vstd::arithmetic::power::pow);
    vstd::arithmetic::power2::lemma_pow2(0);
}

/// Bit 0 of a number says whether the number is odd.
pub proof fn lemma_bit_lowest(x: nat)
    ensures
        bit(x, 0) == (x % 2 == 1),
{
    reveal(bit);
    lemma_pow2_of_zero();
    assert(x / pow2(0nat) == x);
}

/// Halving a number moves every bit one position down.
pub proof fn lemma_bit_of_half(x: nat, k: int)
    requires
        0 <= k,
    ensures
        bit(x / 2, k) == bit(x, k + 1),
{
    reveal(bit);
    lemma_pow2_pos(k as nat);
    lemma_pow2_unfold((k + 1) as nat);
    lemma_div_denominator(x as int, 2, pow2(k as nat) as int);
}

/// Two numbers of `n` bits that agree in each of those bits are equal.
pub proof fn lemma_bits_determine(x: nat, y: nat, n: int)
    requires
        fits(x, n),
        fits(y, n),
        forall|k: int| 0 <= k < n ==> #[trigger] bit(x, k) == bit(y, k),
    ensures
        x == y,
    decreases n,
{
    if n == 0 {
        lemma_pow2_of_zero();
    } else {
        lemma_pow2_unfold(n as nat);
        let hx = x / 2;
        let hy = y / 2;
        assert forall|k: int| 0 <= k < n - 1 implies #[trigger] bit(hx, k) == bit(hy, k) by {
            lemma_bit_of_half(x, k);
            lemma_bit_of_half(y, k);
        }
        lemma_bits_determine(hx, hy, n - 1);
        assert(bit(x, 0) == bit(y, 0));
        lemma_bit_lowest(x);
        lemma_bit_lowest(y);
        lemma_fundamental_div_mod(x as int, 2);
        lemma_fundamental_div_mod(y as int, 2);
    }
}

/// The remainder of `x` by `2^n` keeps the `n` low bits of `x` and has no
/// others.
pub proof fn lemma_bit_of_remainder(x: nat, n: int, k: int)
    requires
        0 <= n,
    ensures
        bit(x % pow2(n as nat), k) == (k < n && bit(x, k)),
{
    let m = pow2(n as nat);
    lemma_pow2_pos(n as nat);
    lemma_mod_bound(x as int, m as int);
    if k < 0 {
        reveal(bit);
    } else if k >= n {
        lemma_bit_above(x % m, n, k);
    } else {
        reveal(bit);
        let low = pow2(k as nat);
        let rest = pow2((n - k - 1) as nat);
        lemma_pow2_pos(k as nat);
        lemma_pow2_pos((n - k - 1) as nat);
        lemma_pow2_unfold((n - k) as nat);
        lemma_pow2_adds(k as nat, (n - k) as nat);
        let high = 2 * rest;
        assert(m == low * high);
        // x % (low * high) == low * ((x / low) % high) + x % low
        lemma_mod_breakdown(x as int, low as int, high as int);
        lemma_mod_bound(x as int, low as int);
        let q = (x as int / low as int) % (high as int);
        assert((x % m) as int == q * low + (x as int % low as int)) by (nonlinear_arith)
            requires
                (x % m) as int == low * q + (x as int % low as int),
        ;
        lemma_fundamental_div_mod_converse(
            (x % m) as int,
            low as int,
            q,
            x as int % low as int,
        );
        assert((x % m) / low == q);
        // (y % (2 * rest)) % 2 == y % 2
        lemma_mod_mod(x as int / low as int, 2, rest as int);
    }
}

/// A number fits in `n` bits exactly when its remainder by `2^n` is the
/// number itself.
pub proof fn lemma_fits_remainder(x: nat, n: int)
    requires
        0 <= n,
    ensures
        fits(x, n) <==> x % pow2(n as nat) == x,
{
    lemma_pow2_pos(n as nat);
    lemma_mod_bound(x as int, pow2(n as nat) as int);
    if x < pow2(n as nat) {
        vstd::arithmetic::div_mod::lemma_small_mod(x, pow2(n as nat));
    }
}

/// A number that fits in `n` bits fits in any larger count of bits.
pub proof fn lemma_fits_more(x: nat, n: int, m: int)
    requires
        fits(x, n),
        n <= m,
    ensures
        fits(x, m),
{
    if n < m {
        lemma_pow2_strictly_increases(n as nat, m as nat);
    }
}

/// A number of `t` bits whose bits are the `n` low bits of `x` is the remainder
/// of `x` by `2^n`.
pub proof fn lemma_low_bits_value(r: nat, x: nat, n: int, t: int)
    requires
        0 <= n <= t,
        fits(r, t),
        forall|k: int| 0 <= k < t ==> #[trigger] bit(r, k) == (k < n && bit(x, k)),
    ensures
        r == x % pow2(n as nat),
{
    let m = x % pow2(n as nat);
    lemma_pow2_pos(n as nat);
    lemma_mod_bound(x as int, pow2(n as nat) as int);
    lemma_fits_more(m, n, t);
    assert forall|k: int| 0 <= k < t implies #[trigger] bit(r, k) == bit(m, k) by {
        lemma_bit_of_remainder(x, n, k);
    }
    lemma_bits_determine(r, m, t);
}

} // verus!
