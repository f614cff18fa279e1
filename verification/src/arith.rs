//! Powers of two, and the division with remainder that splits an index into its digits.
use vstd::arithmetic::div_mod::*;
use vstd::arithmetic::mul::*;
use vstd::arithmetic::power2::*;
use vstd::bits::*;
use vstd::prelude::*;

verus! {

/// A power of two fits in `usize` exactly if its exponent is below the width of `usize`.
pub proof fn lemma_pow2_fits(n: nat)
    ensures
        pow2(n) <= usize::MAX <==> n < usize::BITS,
{
    lemma2_to64();
    lemma2_to64_rest();
    if n < usize::BITS {
        lemma_usize_pow2_no_overflow(n);
    } else {
        lemma_pow2_monotone(usize::BITS as nat, n);
    }
}

/// Powers of two grow with the exponent.
pub proof fn lemma_pow2_monotone(a: nat, b: nat)
    requires
        a <= b,
    ensures
        0 < pow2(a) <= pow2(b),
{
    lemma_pow2_pos(a);
    if a < b {
        lemma_pow2_strictly_increases(a, b);
    }
}

/// Powers of two are ordered as their exponents are.
pub proof fn lemma_pow2_order(a: nat, b: nat)
    ensures
        pow2(a) <= pow2(b) <==> a <= b,
        pow2(a) == pow2(b) <==> a == b,
{
    if a < b {
        lemma_pow2_strictly_increases(a, b);
    } else if b < a {
        lemma_pow2_strictly_increases(b, a);
    }
}

/// Returns two to the power `n`.
pub fn pow2_usize(n: usize) -> (r: usize)
    requires
        pow2(n as nat) <= usize::MAX,
    ensures
        r == pow2(n as nat),
{
    proof {
        lemma_pow2_fits(n as nat);
        lemma_usize_shl_is_mul(1, n);
    }
    1usize << n
}

/// Tells whether `n` is a power of two.
pub fn is_power_of_two(n: usize) -> (r: bool)
    ensures
        r == is_pow2(n as int),
{
    reveal(is_pow2);
    if n == 0 {
        return false;
    }
    let mut m: usize = n;
    while m > 1
        invariant
            m >= 1,
            is_pow2(m as int) == is_pow2(n as int),
        decreases m,
    {
        reveal(is_pow2);
        if m % 2 != 0 {
            return false;
        }
        m = m / 2;
    }
    true
}

/// A power of two has an exponent.
pub proof fn lemma_is_pow2_exponent(n: int) -> (d: nat)
    requires
        is_pow2(n),
    ensures
        n == pow2(d),
{
    is_pow2_equiv(n);
    let d = choose|i: nat| vstd::arithmetic::power::pow(2, i) == n;
    lemma_pow2(d);
    d
}

/// Every power of two is one.
pub proof fn lemma_pow2_is_pow2(d: nat)
    ensures
        is_pow2(pow2(d) as int),
{
    lemma_pow2(d);
    lemma_pow2_pos(d);
    assert(vstd::arithmetic::power::pow(2, d) == pow2(d) as int);
    is_pow2_equiv(pow2(d) as int);
}

/// Tells whether index `l` lies in the lower half of its block of length `2 h`.
pub open spec fn low_half(l: int, h: int) -> bool {
    (l / h) % 2 == 0
}

/// Quotient and remainder of a number that is given by them.
pub proof fn lemma_digits(q: int, d: int, r: int)
    requires
        0 <= r < d,
    ensures
        (q * d + r) / d == q,
        (q * d + r) % d == r,
{
    lemma_fundamental_div_mod_converse(q * d + r, d, q, r);
}

/// A number is its quotient times the divisor, plus its remainder.
pub proof fn lemma_split(x: int, d: int)
    requires
        d > 0,
    ensures
        x == (x / d) * d + x % d,
        0 <= x % d < d,
{
    lemma_fundamental_div_mod(x, d);
    lemma_mul_is_commutative(x / d, d);
}

/// A number below a product has its quotient below the other factor.
pub proof fn lemma_div_below(x: int, d: int, n: int)
    requires
        0 <= x < n * d,
        d > 0,
    ensures
        0 <= x / d < n,
{
    lemma_split(x, d);
    assert(0 <= x / d < n) by (nonlinear_arith)
        requires
            x == (x / d) * d + x % d,
            0 <= x % d < d,
            0 <= x < n * d,
    ;
}

/// A pair of digits below their bounds gives a number below the product of the bounds.
pub proof fn lemma_digits_below(q: int, d: int, r: int, n: int)
    requires
        0 <= r < d,
        0 <= q < n,
    ensures
        0 <= q * d,
        q * d + r < n * d,
        (q + 1) * d <= n * d,
{
    assert(0 <= q * d && q * d + r < n * d && (q + 1) * d <= n * d) by (nonlinear_arith)
        requires
            0 <= r < d,
            0 <= q < n,
    ;
}

/// The binary digits of numbers with at most `n` of them, joined, are at most `n`.
pub proof fn lemma_or_below(a: usize, b: usize, n: nat)
    requires
        a < pow2(n),
        b < pow2(n),
    ensures
        (a | b) < pow2(n),
{
    lemma_pow2_fits(n);
    if n < usize::BITS {
        let m = low_bits_mask(n) as usize;
        lemma_usize_low_bits_mask_is_mod(a, n);
        lemma_usize_low_bits_mask_is_mod(b, n);
        lemma_small_mod(a as nat, pow2(n));
        lemma_small_mod(b as nat, pow2(n));
        assert((a | b) <= m) by (bit_vector)
            requires
                a & m == a,
                b & m == b,
        ;
    }
}

/// Joining binary digits that do not overlap is adding.
pub proof fn lemma_or_sum(a: usize, b: usize, n: nat)
    requires
        a as int % pow2(n) as int == 0,
        b < pow2(n),
    ensures
        (a | b) == a + b,
{
    lemma_pow2_fits(n);
    lemma_pow2_pos(n);
    if n < usize::BITS {
        let m = low_bits_mask(n) as usize;
        lemma_usize_low_bits_mask_is_mod(a, n);
        lemma_usize_low_bits_mask_is_mod(b, n);
        lemma_small_mod(b as nat, pow2(n));
        assert((a | b) == a + b) by (bit_vector)
            requires
                a & m == 0,
                b & m == b,
        ;
    } else {
        lemma_small_mod(a as nat, pow2(n));
        assert(0usize | b == b) by (bit_vector);
    }
}

} // verus!
