//! Fixed-point scalars.
//!
//! Every real quantity of the renderer (coordinates, ray parameters, light
//! intensities, reflectivities) is an `i64` that counts units of `1 / ONE`.
//! Sums and differences are exact. Products are formed exactly in `i128` and
//! brought back to the scalar format by one floor division; square roots are
//! floor square roots.

use vstd::prelude::*;

verus! {

/// Number of fractional bits of a scalar.
pub const FRAC_BITS: u32 = 15;

/// The scalar that stands for 1.
pub const ONE: i64 = 32768;

/// The ray parameter that stands for "no bound" and for "no intersection".
/// No root of a ray comes near it.
pub const INFINITY: i64 = 0x7fff_ffff_ffff_ffff;

/// Largest magnitude of a root of a ray of the world on a sphere of the
/// world.
pub const ROOT_MAX: i64 = 0x8000_0000_0000;

/// Largest magnitude of a coordinate of a point of the world (16384 units).
pub const WORLD_MAX: i64 = 0x2000_0000;

/// Largest magnitude of a component of a ray direction (32768 units).
pub const RAY_MAX: i64 = 0x4000_0000;

/// Largest light intensity (32768).
pub const INTENSITY_MAX: i64 = 0x4000_0000;

/// Largest number of lights in a scene: the sum of as many shares, none of
/// them above four times `INTENSITY_MAX`, is still a scalar.
pub const MAX_LIGHTS: usize = 0x7fff_ffff;

/// Offset along a secondary ray that keeps it from hitting the surface it
/// starts on: 0.001, rounded to the nearest scalar.
pub const SHADOW_EPSILON: i64 = 33;

/// How far rounding may carry a hit point beyond the surface of its
/// sphere, along each axis: two units and the longest step that a ray
/// takes while its parameter grows by one unit.
pub const SURFACE_MARGIN: i64 = 65538;

/// `r` is the floor of the square root of `n`.
pub open spec fn is_sqrt_floor(n: int, r: int) -> bool {
    0 <= r && r * r <= n && n < (r + 1) * (r + 1)
}

/// The floor of the square root of a non-negative integer.
pub open spec fn sqrt_floor(n: int) -> int {
    choose|r: int| is_sqrt_floor(n, r)
}

/// `x` limited to the interval from `lo` to `hi`.
pub open spec fn clamp(x: int, lo: int, hi: int) -> int {
    if x < lo {
        lo
    } else if x > hi {
        hi
    } else {
        x
    }
}

/// `base` raised to the power `n` in scalar arithmetic: `n` successive
/// products, each rounded down.
pub open spec fn pow_fixed(base: int, n: nat) -> int
    decreases n,
{
    if n == 0 {
        ONE as int
    } else {
        pow_fixed(base, (n - 1) as nat) * base / (ONE as int)
    }
}

/// The product of two bounded integers is bounded by the product of the bounds.
pub proof fn lemma_mul_bound(a: int, b: int, ma: int, mb: int)
    by (nonlinear_arith)
    requires
        -ma <= a <= ma,
        -mb <= b <= mb,
    ensures
        -(ma * mb) <= a * b <= ma * mb,
{
}

/// The product of two non-negative integers grows with each factor.
pub proof fn lemma_mul_le(a: int, b: int, c: int, d: int)
    by (nonlinear_arith)
    requires
        0 <= a <= c,
        0 <= b <= d,
    ensures
        0 <= a * b <= c * d,
{
}

/// Floor division by a positive divisor keeps the order.
pub proof fn lemma_div_le(a: int, b: int, d: int)
    by (nonlinear_arith)
    requires
        a <= b,
        d > 0,
    ensures
        a / d <= b / d,
{
}

/// Floor division by a positive divisor moves no integer away from zero.
pub proof fn lemma_div_magnitude(n: int, d: int)
    by (nonlinear_arith)
    requires
        d > 0,
    ensures
        n >= 0 ==> 0 <= n / d <= n,
        n < 0 ==> n <= n / d < 0,
{
}

/// The floor quotient, multiplied by the divisor, falls short of the
/// dividend by less than the divisor.
pub proof fn lemma_floor_div(n: int, d: int)
    by (nonlinear_arith)
    requires
        d > 0,
    ensures
        d * (n / d) <= n < d * (n / d) + d,
{
}

/// An exact multiple divides without remainder.
pub proof fn lemma_div_exact(q: int, d: int)
    by (nonlinear_arith)
    requires
        d > 0,
    ensures
        (q * d) / d == q,
{
}

/// At most one integer is the floor square root of `n`.
pub proof fn lemma_sqrt_floor_unique(n: int, r1: int, r2: int)
    by (nonlinear_arith)
    requires
        is_sqrt_floor(n, r1),
        is_sqrt_floor(n, r2),
    ensures
        r1 == r2,
{
    if r1 < r2 {
        assert((r1 + 1) * (r1 + 1) <= r2 * r2);
    } else if r2 < r1 {
        assert((r2 + 1) * (r2 + 1) <= r1 * r1);
    }
}

/// Every non-negative integer has a floor square root.
pub proof fn lemma_sqrt_floor_exists(n: int) -> (r: int)
    requires
        n >= 0,
    ensures
        is_sqrt_floor(n, r),
    decreases n,
{
    if n == 0 {
        assert(is_sqrt_floor(0, 0)) by (nonlinear_arith);
        0
    } else {
        let p = lemma_sqrt_floor_exists(n - 1);
        if n < (p + 1) * (p + 1) {
            p
        } else {
            let q = p + 1;
            assert(is_sqrt_floor(n, q)) by (nonlinear_arith)
                requires
                    p >= 0,
                    q == p + 1,
                    n - 1 < (p + 1) * (p + 1),
                    n >= (p + 1) * (p + 1),
            ;
            q
        }
    }
}

/// `sqrt_floor(n)` is the floor square root of a non-negative `n`.
pub proof fn lemma_sqrt_floor(n: int)
    requires
        n >= 0,
    ensures
        is_sqrt_floor(n, sqrt_floor(n)),
{
    let r = lemma_sqrt_floor_exists(n);
    assert(is_sqrt_floor(n, r));
}

/// Whoever finds a floor square root of `n` has found `sqrt_floor(n)`.
pub proof fn lemma_sqrt_floor_is(n: int, r: int)
    requires
        is_sqrt_floor(n, r),
    ensures
        sqrt_floor(n) == r,
{
    lemma_sqrt_floor_unique(n, r, sqrt_floor(n));
}

/// The quotient of `n` by a positive `d`, rounded down.
pub fn floor_div(n: i128, d: i128) -> (q: i128)
    requires
        d > 0,
    ensures
        q == n / d,
{
    match n.checked_div_euclid(d) {
        Some(q) => q,
        None => {
            assert(i128::MIN <= n / d <= i128::MAX) by (nonlinear_arith)
                requires
                    d > 0,
                    i128::MIN <= n <= i128::MAX,
            ;
            0
        },
    }
}

/// The exact product of two scalars, in units of `1 / ONE^2`.
pub fn wide_mul(a: i64, b: i64) -> (p: i128)
    ensures
        p == a * b,
{
    proof {
        lemma_mul_bound(a as int, b as int, 0x8000_0000_0000_0000, 0x8000_0000_0000_0000);
    }
    (a as i128) * (b as i128)
}

/// The floor of the square root of `n`.
pub fn isqrt(n: i128) -> (r: i128)
    requires
        n >= 0,
    ensures
        r == sqrt_floor(n as int),
        is_sqrt_floor(n as int, r as int),
        0 <= r < 0x1_0000_0000_0000_0000,
{
    let target: u128 = n as u128;
    let mut lo: u128 = 0;
    let mut hi: u128 = 0x1_0000_0000_0000_0000;
    assert(0x1_0000_0000_0000_0000int * 0x1_0000_0000_0000_0000int > i128::MAX) by (nonlinear_arith);
    while hi - lo > 1
        invariant
            target == n,
            lo < hi <= 0x1_0000_0000_0000_0000,
            lo * lo <= target,
            target < hi * hi,
        decreases hi - lo,
    {
        let mid: u128 = lo + (hi - lo) / 2;
        assert(mid * mid <= 0xffff_ffff_ffff_ffff * 0xffff_ffff_ffff_ffff) by (nonlinear_arith)
            requires
                0 <= mid <= 0xffff_ffff_ffff_ffff,
        ;
        if mid * mid <= target {
            lo = mid;
        } else {
            hi = mid;
        }
    }
    proof {
        lemma_sqrt_floor_is(n as int, lo as int);
    }
    lo as i128
}

/// From a power that is zero on, every power is zero.
pub proof fn lemma_pow_fixed_zero(base: int, k: nat, n: nat)
    requires
        k <= n,
        pow_fixed(base, k) == 0,
    ensures
        pow_fixed(base, n) == 0,
    decreases n,
{
    if n > k {
        lemma_pow_fixed_zero(base, k, (n - 1) as nat);
        assert(0 * base / (ONE as int) == 0) by (nonlinear_arith);
    }
}

/// The powers of a scalar between 0 and `ONE` lie between 0 and `ONE`.
pub proof fn lemma_pow_fixed_bounds(base: int, n: nat)
    requires
        0 <= base <= ONE,
    ensures
        0 <= pow_fixed(base, n) <= ONE,
    decreases n,
{
    if n > 0 {
        lemma_pow_fixed_bounds(base, (n - 1) as nat);
        let p = pow_fixed(base, (n - 1) as nat);
        lemma_mul_le(p, base, ONE as int, ONE as int);
        lemma_div_le(0, p * base, ONE as int);
        lemma_div_le(p * base, ONE * ONE, ONE as int);
    }
}

/// Every power of `ONE` is `ONE`.
pub proof fn lemma_pow_fixed_one(n: nat)
    ensures
        pow_fixed(ONE as int, n) == ONE,
    decreases n,
{
    if n > 0 {
        lemma_pow_fixed_one((n - 1) as nat);
    }
}

/// `base` raised to the power `n` in scalar arithmetic, for a scalar
/// between 0 and `ONE`.
pub fn fixed_pow(base: i64, n: u32) -> (p: i64)
    requires
        0 <= base <= ONE,
    ensures
        p == pow_fixed(base as int, n as nat),
        0 <= p <= ONE,
{
    if base == ONE {
        proof {
            lemma_pow_fixed_one(n as nat);
        }
        return ONE;
    }
    let mut p: i64 = ONE;
    let mut k: u32 = 0;
    while k < n && p > 0
        invariant
            0 <= base <= ONE,
            k <= n,
            p == pow_fixed(base as int, k as nat),
            0 <= p <= ONE,
        decreases n - k,
    {
        proof {
            lemma_pow_fixed_bounds(base as int, (k + 1) as nat);
        }
        p = floor_div(wide_mul(p, base), ONE as i128) as i64;
        k = k + 1;
    }
    proof {
        if k < n {
            lemma_pow_fixed_zero(base as int, k as nat, n as nat);
        }
    }
    p
}

/// The scalar that stands for the whole number `n`.
pub fn from_int(n: i32) -> (s: i64)
    ensures
        s == n * ONE,
{
    (n as i64) * ONE
}

/// The scalar that stands for `num / den`, rounded down.
pub fn from_ratio(num: i32, den: i32) -> (s: i64)
    requires
        den > 0,
    ensures
        s == num * ONE / (den as int),
{
    let scaled: i128 = wide_mul(num as i64, ONE);
    let q: i128 = floor_div(scaled, den as i128);
    proof {
        lemma_div_magnitude(scaled as int, den as int);
    }
    q as i64
}

} // verus!
