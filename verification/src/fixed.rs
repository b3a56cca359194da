//! Fixed-point scalars: an `i64` carries a real number scaled by `SCALE`,
//! so the low 16 bits are the fractional part.  Multiplication, division
//! and square root round toward zero, exactly as stated by `tdiv` and
//! `isqrt_val`.

use vstd::arithmetic::div_mod::{
    lemma_div_is_ordered, lemma_div_multiples_vanish, lemma_div_nonincreasing,
    lemma_div_pos_is_pos, lemma_remainder,
};
use vstd::prelude::*;

verus! {

/// Number of fixed-point units in one whole; values carry 16 fractional bits.
pub const SCALE: i64 = 65536;

pub open spec fn fits_i64(a: int) -> bool {
    i64::MIN <= a <= i64::MAX
}

/// Truncating (round-toward-zero) integer division, the rounding rule of
/// the hardware division that the executable code performs.
pub open spec fn tdiv(a: int, b: int) -> int {
    if a == 0 {
        0
    } else if a > 0 && b > 0 {
        a / b
    } else if a < 0 && b < 0 {
        (a * -1) / (b * -1)
    } else if a < 0 {
        ((a * -1) / b) * -1
    } else {
        (a / (b * -1)) * -1
    }
}

/// Value of the fixed-point product of two scalars.
pub open spec fn fx_mul_val(a: int, b: int) -> int {
    tdiv(a * b, SCALE as int)
}

/// Value of the fixed-point quotient of two scalars.
pub open spec fn fx_div_val(a: int, b: int) -> int {
    tdiv(a * (SCALE as int), b)
}

/// Integer square root, rounded down.
pub open spec fn isqrt_val(n: nat) -> nat
    decreases n,
{
    if n == 0 {
        0
    } else {
        let r = isqrt_val((n - 1) as nat);
        if (r + 1) * (r + 1) <= n {
            r + 1
        } else {
            r
        }
    }
}

/// Value of the fixed-point square root of a nonnegative scalar.
pub open spec fn fx_sqrt_val(a: int) -> int {
    isqrt_val((a * (SCALE as int)) as nat) as int
}

/// Truncating division by a positive divisor keeps magnitude: the
/// quotient is never positive for a nonpositive dividend, and never
/// exceeds the dividend's magnitude.
pub proof fn lemma_tdiv_size(a: int, b: int)
    requires
        b > 0,
    ensures
        a >= 0 ==> 0 <= tdiv(a, b) <= a,
        a <= 0 ==> a <= tdiv(a, b) <= 0,
{
    if a > 0 {
        lemma_div_pos_is_pos(a, b);
        lemma_div_nonincreasing(a, b);
    } else if a < 0 {
        lemma_div_pos_is_pos(a * -1, b);
        lemma_div_nonincreasing(a * -1, b);
    }
}

/// Truncating division by a positive divisor is monotone in the dividend.
pub proof fn lemma_tdiv_mono(a1: int, a2: int, b: int)
    requires
        b > 0,
        a1 <= a2,
    ensures
        tdiv(a1, b) <= tdiv(a2, b),
{
    lemma_tdiv_size(a1, b);
    lemma_tdiv_size(a2, b);
    if a1 > 0 && a2 > 0 {
        lemma_div_is_ordered(a1, a2, b);
    } else if a1 < 0 && a2 < 0 {
        lemma_div_is_ordered(a2 * -1, a1 * -1, b);
    }
}

/// Multiplying a truncated quotient back by the divisor lands within one
/// divisor of the dividend, on the dividend's side of zero.
pub proof fn lemma_tdiv_fundamental(a: int, b: int)
    requires
        b > 0,
    ensures
        a >= 0 ==> a - b < b * tdiv(a, b) <= a,
        a <= 0 ==> a <= b * tdiv(a, b) < a + b,
{
    if a > 0 {
        lemma_remainder(a, b);
        assert(b * (a / b) == a / b * b) by (nonlinear_arith);
    } else if a < 0 {
        let q = (a * -1) / b;
        lemma_remainder(a * -1, b);
        assert(b * (q * -1) == -(q * b)) by (nonlinear_arith);
    }
}

/// A dividend that is an exact multiple of a positive divisor divides out
/// without rounding.
pub proof fn lemma_tdiv_exact(k: int, b: int)
    requires
        b > 0,
    ensures
        tdiv(k * b, b) == k,
{
    if k > 0 {
        assert(k * b > 0) by (nonlinear_arith)
            requires
                k > 0 && b > 0,
        ;
        lemma_div_multiples_vanish(k, b);
        assert(k * b == b * k) by (nonlinear_arith);
    } else if k < 0 {
        assert(k * b < 0) by (nonlinear_arith)
            requires
                k < 0 && b > 0,
        ;
        lemma_div_multiples_vanish(k * -1, b);
        assert((k * b) * -1 == b * (k * -1)) by (nonlinear_arith);
    } else {
        assert(k * b == 0) by (nonlinear_arith)
            requires
                k == 0,
        ;
    }
}

/// Bound on a product from bounds on its factors.
pub proof fn lemma_mul_bound(a: int, b: int, ma: int, mb: int)
    requires
        -ma <= a <= ma,
        -mb <= b <= mb,
    ensures
        -(ma * mb) <= a * b <= ma * mb,
{
    assert(-(ma * mb) <= a * b <= ma * mb) by (nonlinear_arith)
        requires
            -ma <= a <= ma,
            -mb <= b <= mb,
    ;
}

/// Bound on a truncated quotient from a bound on the dividend.
pub proof fn lemma_tdiv_bound(a: int, b: int, m: int)
    requires
        b > 0,
        -m <= a <= m,
        0 <= m,
    ensures
        -tdiv(m, b) <= tdiv(a, b) <= tdiv(m, b),
        -m <= tdiv(a, b) <= m,
{
    lemma_tdiv_mono(a, m, b);
    lemma_tdiv_mono(-m, a, b);
    lemma_tdiv_size(m, b);
    assert(tdiv(-m, b) == -tdiv(m, b));
}

/// A dividend strictly below a multiple of a positive divisor divides
/// to strictly below that multiplier.
pub proof fn lemma_tdiv_lt(a: int, b: int, m: int)
    requires
        b > 0,
        0 <= a,
        a < b * m,
    ensures
        tdiv(a, b) < m,
{
    lemma_tdiv_fundamental(a, b);
    assert(tdiv(a, b) < m) by (nonlinear_arith)
        requires
            b > 0,
            b * tdiv(a, b) <= a,
            a < b * m,
    ;
}

/// The recursive integer square root really is the rounded-down root.
pub proof fn lemma_isqrt_val(n: nat)
    ensures
        (isqrt_val(n) as int) * (isqrt_val(n) as int) <= n as int,
        (n as int) < ((isqrt_val(n) as int) + 1) * ((isqrt_val(n) as int) + 1),
    decreases n,
{
    let s = isqrt_val(n) as int;
    if n > 0 {
        lemma_isqrt_val((n - 1) as nat);
        let r = isqrt_val((n - 1) as nat) as int;
        if (isqrt_val((n - 1) as nat) + 1) * (isqrt_val((n - 1) as nat) + 1) <= n {
            assert(s == r + 1);
            assert((r + 1) * (r + 1) <= n as int && (n as int) - 1 < (r + 1) * (r + 1)) by {
                assert(((isqrt_val((n - 1) as nat) + 1) * (isqrt_val((n - 1) as nat) + 1)) as int
                    == (r + 1) * (r + 1)) by (nonlinear_arith)
                    requires
                        r == isqrt_val((n - 1) as nat) as int,
                ;
            }
            assert(s * s <= n as int && (n as int) < (s + 1) * (s + 1)) by (nonlinear_arith)
                requires
                    0 <= r,
                    s == r + 1,
                    (r + 1) * (r + 1) <= n as int,
                    (n as int) - 1 < (r + 1) * (r + 1),
            ;
        } else {
            assert(s == r);
            assert((n as int) < (r + 1) * (r + 1)) by {
                assert(((isqrt_val((n - 1) as nat) + 1) * (isqrt_val((n - 1) as nat) + 1)) as int
                    == (r + 1) * (r + 1)) by (nonlinear_arith)
                    requires
                        r == isqrt_val((n - 1) as nat) as int,
                ;
            }
            assert(s * s <= n as int && (n as int) < (s + 1) * (s + 1)) by (nonlinear_arith)
                requires
                    s == r,
                    r * r <= (n as int) - 1,
                    (n as int) < (r + 1) * (r + 1),
            ;
        }
    } else {
        assert(isqrt_val(0nat) == 0);
        assert(s * s <= n as int && (n as int) < (s + 1) * (s + 1)) by (nonlinear_arith)
            requires
                s == 0,
                n == 0,
        ;
    }
}

/// Any number enjoying the two-sided square bound is the integer square root.
pub proof fn lemma_isqrt_unique(n: nat, r: nat)
    requires
        (r as int) * (r as int) <= n as int,
        (n as int) < ((r as int) + 1) * ((r as int) + 1),
    ensures
        r == isqrt_val(n),
{
    lemma_isqrt_val(n);
    let s = isqrt_val(n) as int;
    let ri = r as int;
    if ri < s {
        assert((ri + 1) * (ri + 1) <= s * s) by (nonlinear_arith)
            requires
                0 <= ri && ri + 1 <= s,
        ;
    }
    if s < ri {
        assert((s + 1) * (s + 1) <= ri * ri) by (nonlinear_arith)
            requires
                0 <= s && s + 1 <= ri,
        ;
    }
}

/// The root grows no faster than the square shrinks under it.
pub proof fn lemma_isqrt_bound(n: nat, m: nat)
    requires
        (n as int) < (m as int) * (m as int),
    ensures
        (isqrt_val(n) as int) < m as int,
{
    lemma_isqrt_val(n);
    let s = isqrt_val(n) as int;
    if s >= m as int {
        assert((m as int) * (m as int) <= s * s) by (nonlinear_arith)
            requires
                0 <= m as int <= s,
        ;
    }
}

/// Fixed-point product, rounded toward zero.
pub fn fx_mul(a: i64, b: i64) -> (r: i64)
    requires
        fits_i64(fx_mul_val(a as int, b as int)),
    ensures
        r as int == fx_mul_val(a as int, b as int),
{
    proof {
        lemma_mul_bound(a as int, b as int, i64::MAX as int + 1, i64::MAX as int + 1);
        lemma_tdiv_size((a as int) * (b as int), SCALE as int);
    }
    let p: i128 = (a as i128) * (b as i128);
    let q: i128 = p.checked_div(SCALE as i128).unwrap();
    q as i64
}

/// Fixed-point quotient, rounded toward zero.
pub fn fx_div(a: i64, b: i64) -> (r: i64)
    requires
        b != 0,
        fits_i64(fx_div_val(a as int, b as int)),
    ensures
        r as int == fx_div_val(a as int, b as int),
{
    proof {
        lemma_mul_bound(a as int, SCALE as int, i64::MAX as int + 1, SCALE as int);
        if b > 0 {
            lemma_tdiv_size((a as int) * (SCALE as int), b as int);
        } else {
            lemma_tdiv_size((a as int) * (SCALE as int), (b as int) * -1);
            assert(tdiv((a as int) * (SCALE as int), b as int) == -tdiv(
                (a as int) * (SCALE as int),
                (b as int) * -1,
            ));
        }
    }
    let p: i128 = (a as i128) * (SCALE as i128);
    let q: i128 = p.checked_div(b as i128).unwrap();
    q as i64
}

/// Integer square root of a value below 2^80, by bisection.
fn isqrt_u128(n: u128) -> (r: u128)
    requires
        (n as nat) < 0x100000000000000000000,
    ensures
        r as nat == isqrt_val(n as nat),
        (r as nat) * (r as nat) <= n as nat,
{
    let mut lo: u128 = 0;
    let mut hi: u128 = 0x10000000000;
    proof {
        assert((0x10000000000 as nat) * (0x10000000000 as nat) == 0x100000000000000000000)
            by (nonlinear_arith);
    }
    while hi - lo > 1
        invariant
            0 <= lo < hi <= 0x10000000000,
            (lo as nat) * (lo as nat) <= n as nat,
            (n as nat) < (hi as nat) * (hi as nat),
        decreases hi - lo,
    {
        let mid: u128 = lo + (hi - lo) / 2;
        proof {
            lemma_mul_bound(mid as int, mid as int, 0x10000000000, 0x10000000000);
            assert(0x10000000000 * 0x10000000000 == 0x100000000000000000000)
                by (nonlinear_arith);
        }
        let sq: u128 = mid * mid;
        if sq <= n {
            lo = mid;
        } else {
            hi = mid;
        }
    }
    proof {
        lemma_isqrt_unique(n as nat, lo as nat);
    }
    lo
}

/// Fixed-point square root of a nonnegative scalar, rounded down.
pub fn fx_sqrt(a: i64) -> (r: i64)
    requires
        a >= 0,
    ensures
        r as int == fx_sqrt_val(a as int),
        r >= 0,
{
    proof {
        lemma_mul_bound(a as int, SCALE as int, i64::MAX as int, SCALE as int);
        assert((i64::MAX as int) * (SCALE as int) < 0x100000000000000000000)
            by (nonlinear_arith);
        lemma_isqrt_bound((a as int * SCALE as int) as nat, 0x10000000000);
    }
    let n: u128 = (a as u128) * (SCALE as u128);
    let s: u128 = isqrt_u128(n);
    s as i64
}

} // verus!
