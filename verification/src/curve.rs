//! Fixed-point curve shapes for the row-skew perturbation.
//!
//! The skew displaces a row along a logarithmic curve and tilts it by
//! an arc-tangent curve. Both curves are computed here on integers, in
//! thousandths: `ln_1p_milli(x)` approximates `1000 * ln(1 + x)` and
//! `atan_inv_milli(m)` approximates `1000 * atan(1 / m)`.

use vstd::arithmetic::div_mod::{lemma_fundamental_div_mod, lemma_mod_bound};
use vstd::arithmetic::power2::{
    lemma2_to64, lemma_pow2_pos, lemma_pow2_strictly_increases, lemma_pow2_unfold, pow2,
};
use vstd::prelude::*;

verus! {

/// `a / b` stays below `c` when `a` stays below `c * b`.
proof fn lemma_div_below(a: int, b: int, c: int)
    requires
        0 <= a,
        0 < b,
        a < c * b,
    ensures
        a / b < c,
{
    lemma_fundamental_div_mod(a, b);
    lemma_mod_bound(a, b);
    if a / b >= c {
        assert(b * (a / b) >= b * c) by (nonlinear_arith)
            requires
                a / b >= c,
                b > 0,
        ;
        assert(c * b == b * c) by (nonlinear_arith);
    }
}

/// The floor of the base-two logarithm.
pub open spec fn floor_log2(n: int) -> nat
    decreases n,
{
    if n < 2 {
        0
    } else {
        1 + floor_log2(n / 2)
    }
}

/// `floor_log2` is pinned down by the enclosing powers of two.
proof fn lemma_floor_log2_unique(n: int, k: nat)
    requires
        pow2(k) <= n < 2 * pow2(k),
    ensures
        floor_log2(n) == k,
    decreases k,
{
    if k == 0 {
        lemma2_to64();
        assert(n == 1);
    } else {
        lemma_pow2_unfold(k);
        assert(pow2(k) == 2 * pow2((k - 1) as nat));
        assert(n / 2 >= pow2((k - 1) as nat)) by {
            lemma_fundamental_div_mod(n, 2);
            lemma_mod_bound(n, 2);
        }
        assert(n / 2 < 2 * pow2((k - 1) as nat)) by {
            lemma_fundamental_div_mod(n, 2);
            lemma_mod_bound(n, 2);
        }
        lemma_floor_log2_unique(n / 2, (k - 1) as nat);
        assert(n >= 2);
    }
}

/// Thousandths of the natural logarithm of `1 + x`: with
/// `n = x + 1`, `k = floor_log2(n)` and `r = n - 2^k`, the value is
/// `693 k + 693 r / 2^k` — `ln 2 ≈ 0.693` times the binary exponent,
/// linearly interpolated between neighbouring powers of two.
pub open spec fn spec_ln_1p_milli(x: int) -> int {
    let n = x + 1;
    let k = floor_log2(n);
    693 * k + 693 * (n - pow2(k)) / pow2(k) as int
}

/// Fixed-point natural logarithm of `1 + x`, in thousandths.
pub fn ln_1p_milli(x: usize) -> (r: u64)
    requires
        x < usize::MAX,
    ensures
        r == spec_ln_1p_milli(x as int),
        r < 45000,
{
    let n = x + 1;
    let mut k: u64 = 0;
    let mut p: usize = 1;
    proof {
        lemma2_to64();
    }
    while p <= n / 2
        invariant
            1 <= n <= usize::MAX,
            p == pow2(k as nat),
            p <= n,
            k <= 64,
        decreases n - p,
    {
        proof {
            lemma_fundamental_div_mod(n as int, 2);
            lemma_mod_bound(n as int, 2);
            lemma_pow2_pos(k as nat);
            lemma_pow2_unfold((k + 1) as nat);
            assert(2 * p == pow2((k + 1) as nat));
            if k + 1 > 64 {
                lemma_pow2_strictly_increases(64, (k + 1) as nat);
                lemma2_to64();
                assert(false);
            }
            lemma2_to64();
        }
        p = p * 2;
        k = k + 1;
    }
    proof {
        lemma_fundamental_div_mod(n as int, 2);
        lemma_mod_bound(n as int, 2);
        assert(n < 2 * p);
        lemma_floor_log2_unique(n as int, k as nat);
        if k >= 64 {
            lemma_pow2_strictly_increases(64, k as nat);
            lemma2_to64();
            assert(false);
        }
    }
    let rem = n - p;
    let frac128 = (693u128 * (rem as u128)) / (p as u128);
    proof {
        assert(693 * (rem as int) < 693 * (p as int));
        lemma_div_below(693 * (rem as int), p as int, 693);
        assert(frac128 < 693);
    }
    let frac = frac128 as u64;
    693 * k + frac
}

/// Milliradians of the arc tangent of `1 / m`, by the rational
/// approximation `atan(t) ≈ t / (1 + 0.28 t²)`: for `t = 1/m` this is
/// `1000000 m / (1000 m² + 280)`.
pub open spec fn spec_atan_inv_milli(m: int) -> int {
    1000000 * m / (1000 * m * m + 280)
}

/// Fixed-point arc tangent of `1 / m`, in milliradians.
pub fn atan_inv_milli(m: usize) -> (r: u64)
    requires
        1 <= m <= 1000000,
    ensures
        r == spec_atan_inv_milli(m as int),
        r <= 1000,
{
    let m128 = m as u128;
    proof {
        assert(1000 * (m as int) * (m as int) <= 1000000000000000) by (nonlinear_arith)
            requires
                m <= 1000000,
        ;
    }
    let num = 1000000u128 * m128;
    let denom = 1000u128 * m128 * m128 + 280;
    let q = num / denom;
    proof {
        let mi = m as int;
        assert(1000000 * mi < 1001 * (1000 * mi * mi + 280)) by (nonlinear_arith)
            requires
                1 <= mi,
        ;
        lemma_div_below(1000000 * mi, 1000 * mi * mi + 280, 1001);
        assert(q <= 1000);
    }
    q as u64
}

} // verus!
