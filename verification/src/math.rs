//! Integer helpers shared by the layout engine: a floor square root and a
//! division that truncates toward zero, together with the small facts the
//! engine proofs need about them.
use vstd::prelude::*;

verus! {

use vstd::arithmetic::div_mod::lemma_div_is_ordered;
use vstd::arithmetic::div_mod::lemma_div_nonincreasing;
use vstd::arithmetic::div_mod::lemma_div_pos_is_pos;
use vstd::arithmetic::div_mod::lemma_div_by_multiple;

/// Floor of the square root: the largest `r` with `r * r <= n`.
pub open spec fn isqrt(n: nat) -> nat
    decreases n,
{
    if n == 0 {
        0
    } else {
        let r = isqrt((n - 1) as nat);
        if (r + 1) * (r + 1) <= n {
            r + 1
        } else {
            r
        }
    }
}

/// `isqrt(n)` is bracketed by the two neighbouring squares.
pub proof fn lemma_isqrt_bounds(n: nat)
    ensures
        isqrt(n) * isqrt(n) <= n,
        n < (isqrt(n) + 1) * (isqrt(n) + 1),
    decreases n,
{
    if n > 0 {
        lemma_isqrt_bounds((n - 1) as nat);
        let r = isqrt((n - 1) as nat);
        if (r + 1) * (r + 1) <= n {
            assert(isqrt(n) == r + 1);
            assert(n < (r + 2) * (r + 2)) by (nonlinear_arith)
                requires
                    n <= (r + 1) * (r + 1),
            ;
        } else {
            assert(isqrt(n) == r);
        }
    } else {
        let q = isqrt(n);
        assert(q == 0);
        assert((q + 1) * (q + 1) == 1) by (nonlinear_arith)
            requires
                q == 0,
        ;
    }
}

/// Any `r` bracketed by the neighbouring squares of `n` is `isqrt(n)`.
pub proof fn lemma_isqrt_unique(n: nat, r: nat)
    requires
        r * r <= n,
        n < (r + 1) * (r + 1),
    ensures
        r == isqrt(n),
{
    lemma_isqrt_bounds(n);
    let q = isqrt(n);
    if r < q {
        assert((r + 1) * (r + 1) <= q * q) by (nonlinear_arith)
            requires
                r + 1 <= q,
        ;
    }
    if q < r {
        assert((q + 1) * (q + 1) <= r * r) by (nonlinear_arith)
            requires
                q + 1 <= r,
        ;
    }
}

/// `isqrt` grows with its argument.
pub proof fn lemma_isqrt_ordered(a: nat, b: nat)
    requires
        a <= b,
    ensures
        isqrt(a) <= isqrt(b),
{
    lemma_isqrt_bounds(a);
    lemma_isqrt_bounds(b);
    let p = isqrt(a);
    let q = isqrt(b);
    if q < p {
        assert((q + 1) * (q + 1) <= p * p) by (nonlinear_arith)
            requires
                q + 1 <= p,
        ;
    }
}

/// If `n <= m * m` then `isqrt(n) <= m`.
pub proof fn lemma_isqrt_le_of_square(n: nat, m: nat)
    requires
        n <= m * m,
    ensures
        isqrt(n) <= m,
{
    lemma_isqrt_bounds(n);
    let q = isqrt(n);
    if m < q {
        assert(false) by (nonlinear_arith)
            requires
                m + 1 <= q,
                q * q <= n,
                n <= m * m,
        ;
    }
}

/// The smaller of two integers.
pub open spec fn imin(a: int, b: int) -> int {
    if a <= b {
        a
    } else {
        b
    }
}

/// The larger of two integers.
pub open spec fn imax(a: int, b: int) -> int {
    if a >= b {
        a
    } else {
        b
    }
}

/// Division truncating toward zero, for a positive divisor.
pub open spec fn sdiv(a: int, b: int) -> int
    recommends
        b >= 1,
{
    if a >= 0 {
        a / b
    } else {
        -((-a) / b)
    }
}

/// The magnitude of a truncating quotient never exceeds the dividend's.
pub proof fn lemma_sdiv_abs(a: int, b: int)
    requires
        b >= 1,
    ensures
        vstd::math::abs(sdiv(a, b)) <= vstd::math::abs(a),
        a >= 0 ==> 0 <= sdiv(a, b) <= a,
        a < 0 ==> a <= sdiv(a, b) <= 0,
{
    if a >= 0 {
        lemma_div_pos_is_pos(a, b);
        lemma_div_nonincreasing(a, b);
    } else {
        lemma_div_pos_is_pos(-a, b);
        lemma_div_nonincreasing(-a, b);
    }
}

/// Scaling `x` by `f / d` cannot exceed `f` in magnitude when `|x| <= d`.
pub proof fn lemma_sdiv_scale(x: int, f: int, d: int)
    requires
        d >= 1,
        f >= 0,
        vstd::math::abs(x) <= d,
    ensures
        vstd::math::abs(sdiv(x * f, d)) <= f,
{
    let m = vstd::math::abs(x) as int;
    assert(m * f <= d * f) by (nonlinear_arith)
        requires
            0 <= m <= d,
            f >= 0,
    ;
    lemma_div_by_multiple(f, d);
    assert((d * f) / d == f);
    if x >= 0 {
        assert(x * f == m * f) by (nonlinear_arith)
            requires
                x >= 0,
                m == x,
        ;
        lemma_div_pos_is_pos(m * f, d);
        lemma_div_is_ordered(m * f, d * f, d);
    } else {
        assert(-(x * f) == m * f) by (nonlinear_arith)
            requires
                x < 0,
                m == -x,
        ;
        lemma_div_pos_is_pos(m * f, d);
        lemma_div_is_ordered(m * f, d * f, d);
    }
}

/// A product bounded by `c * k` divides down to at most `c`.
pub proof fn lemma_sdiv_prod_bound(a: int, k: int, c: int)
    requires
        k >= 1,
        c >= 0,
        vstd::math::abs(a) <= c * k,
    ensures
        vstd::math::abs(sdiv(a, k)) <= c,
{
    lemma_div_by_multiple(c, k);
    assert((c * k) / k == c);
    if a >= 0 {
        lemma_div_pos_is_pos(a, k);
        lemma_div_is_ordered(a, c * k, k);
    } else {
        lemma_div_pos_is_pos(-a, k);
        lemma_div_is_ordered(-a, c * k, k);
    }
}

/// Floor square root of a 128-bit value, by bisection.
pub fn isqrt_u128(x: u128) -> (r: u64)
    ensures
        r as nat == isqrt(x as nat),
{
    let mut lo: u128 = 0;
    let mut hi: u128 = 0x1_0000_0000_0000_0000;
    proof {
        assert((hi as nat) * (hi as nat) > x as nat) by (nonlinear_arith)
            requires
                hi == 0x1_0000_0000_0000_0000u128,
                (x as nat) < (0x1_0000_0000_0000_0000 as nat) * (0x1_0000_0000_0000_0000 as nat),
        ;
    }
    while lo + 1 < hi
        invariant
            lo < hi,
            hi <= 0x1_0000_0000_0000_0000,
            (lo as nat) * (lo as nat) <= x as nat,
            (x as nat) < (hi as nat) * (hi as nat),
        decreases hi - lo,
    {
        let mid = lo + (hi - lo) / 2;
        proof {
            assert((mid as nat) * (mid as nat) < (0x1_0000_0000_0000_0000 as nat) * (
            0x1_0000_0000_0000_0000 as nat)) by (nonlinear_arith)
                requires
                    mid < 0x1_0000_0000_0000_0000u128,
            ;
        }
        if mid * mid <= x {
            lo = mid;
        } else {
            hi = mid;
        }
    }
    proof {
        lemma_isqrt_unique(x as nat, lo as nat);
    }
    lo as u64
}

/// Truncating signed division on 128-bit operands.
pub fn sdiv_i128(a: i128, b: i128) -> (q: i128)
    requires
        b >= 1,
        a != i128::MIN,
    ensures
        q as int == sdiv(a as int, b as int),
        a >= 0 ==> 0 <= q <= a,
        a < 0 ==> a <= q <= 0,
{
    proof {
        lemma_sdiv_abs(a as int, b as int);
    }
    if a >= 0 {
        let m: u128 = (a as u128) / (b as u128);
        m as i128
    } else {
        let m: u128 = ((-a) as u128) / (b as u128);
        -(m as i128)
    }
}

/// Truncating signed division on 64-bit operands.
pub fn sdiv_i64(a: i64, b: i64) -> (q: i64)
    requires
        b >= 1,
        a != i64::MIN,
    ensures
        q as int == sdiv(a as int, b as int),
        a >= 0 ==> 0 <= q <= a,
        a < 0 ==> a <= q <= 0,
{
    sdiv_i128(a as i128, b as i128) as i64
}

} // verus!
