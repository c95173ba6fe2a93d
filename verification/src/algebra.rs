//! Identities of whole numbers and of vectors of whole numbers.

use vstd::prelude::*;
use crate::vector::{lemma_norm_sq_sign, V3};

verus! {

/// The square of a sum of three numbers.
pub proof fn lemma_square_of_sum(x: int, y: int, z: int)
    by (nonlinear_arith)
    ensures
        (x + y + z) * (x + y + z) == x * x + y * y + z * z + 2 * (x * y) + 2 * (x * z) + 2 * (y
            * z),
{
}

/// The square of a difference.
pub proof fn lemma_square_of_difference(x: int, y: int)
    by (nonlinear_arith)
    ensures
        (x - y) * (x - y) == x * x + y * y - 2 * (x * y),
{
}

/// Four factors multiply to the same number however they are paired.
pub proof fn lemma_regroup(a: int, b: int, c: int, d: int)
    by (nonlinear_arith)
    ensures
        (a * b) * (c * d) == (a * c) * (b * d),
        (a * b) * (c * d) == (a * d) * (c * b),
{
}

/// A factor before a sum of three numbers goes to each of them.
pub proof fn lemma_distribute(c: int, p: int, q: int, r: int)
    by (nonlinear_arith)
    ensures
        c * (p + q + r) == c * p + c * q + c * r,
{
}

/// A sum of three numbers times a sum of three numbers, term by term.
pub proof fn lemma_product_of_sums(a: int, b: int, c: int, d: int, e: int, f: int)
    ensures
        (a + b + c) * (d + e + f) == a * d + a * e + a * f + b * d + b * e + b * f + c * d + c * e
            + c * f,
{
    let sum = a + b + c;
    lemma_distribute(sum, d, e, f);
    lemma_distribute(d, a, b, c);
    lemma_distribute(e, a, b, c);
    lemma_distribute(f, a, b, c);
    assert(sum * d == d * sum && sum * e == e * sum && sum * f == f * sum) by (nonlinear_arith);
    assert(d * a == a * d && d * b == b * d && d * c == c * d) by (nonlinear_arith);
    assert(e * a == a * e && e * b == b * e && e * c == c * e) by (nonlinear_arith);
    assert(f * a == a * f && f * b == b * f && f * c == c * f) by (nonlinear_arith);
}


/// The square of `x j + y k`.
pub proof fn lemma_square_of_combination(x: int, j: int, y: int, k: int)
    ensures
        (x * j + y * k) * (x * j + y * k) == (j * j) * (x * x) + (2 * (j * k)) * (x * y) + (k * k)
            * (y * y),
{
    let p = x * j;
    let q = y * k;
    assert((p + q) * (p + q) == p * p + 2 * (p * q) + q * q) by (nonlinear_arith);
    lemma_regroup(x, j, x, j);
    lemma_regroup(x, j, y, k);
    lemma_regroup(y, k, y, k);
    assert(p * p == (j * j) * (x * x)) by (nonlinear_arith)
        requires
            p * p == (x * x) * (j * j),
    ;
    assert(q * q == (k * k) * (y * y)) by (nonlinear_arith)
        requires
            q * q == (y * y) * (k * k),
    ;
    assert(2 * (p * q) == (2 * (j * k)) * (x * y)) by (nonlinear_arith)
        requires
            p * q == (x * y) * (j * k),
    ;
}

/// The squared lengths of two vectors multiply to the square of their dot
/// product plus the squared length of their cross product.
pub proof fn lemma_lagrange(u: V3, v: V3)
    ensures
        u.norm_sq() * v.norm_sq() == u.dot(v) * u.dot(v) + u.cross(v).norm_sq(),
{
    let (xx, xy, xz) = (u.x * v.x, u.x * v.y, u.x * v.z);
    let (yx, yy, yz) = (u.y * v.x, u.y * v.y, u.y * v.z);
    let (zx, zy, zz) = (u.z * v.x, u.z * v.y, u.z * v.z);
    lemma_product_of_sums(u.x * u.x, u.y * u.y, u.z * u.z, v.x * v.x, v.y * v.y, v.z * v.z);
    lemma_regroup(u.x, u.x, v.x, v.x);
    lemma_regroup(u.x, u.x, v.y, v.y);
    lemma_regroup(u.x, u.x, v.z, v.z);
    lemma_regroup(u.y, u.y, v.x, v.x);
    lemma_regroup(u.y, u.y, v.y, v.y);
    lemma_regroup(u.y, u.y, v.z, v.z);
    lemma_regroup(u.z, u.z, v.x, v.x);
    lemma_regroup(u.z, u.z, v.y, v.y);
    lemma_regroup(u.z, u.z, v.z, v.z);
    assert(u.norm_sq() * v.norm_sq() == xx * xx + xy * xy + xz * xz + yx * yx + yy * yy + yz * yz
        + zx * zx + zy * zy + zz * zz);
    lemma_square_of_sum(xx, yy, zz);
    lemma_square_of_difference(yz, zy);
    lemma_square_of_difference(zx, xz);
    lemma_square_of_difference(xy, yx);
    lemma_regroup(u.x, v.x, u.y, v.y);
    lemma_regroup(u.x, v.x, u.z, v.z);
    lemma_regroup(u.y, v.y, u.z, v.z);
    assert(xx * yy == xy * yx);
    assert(xx * zz == xz * zx);
    assert(yy * zz == yz * zy);
    assert(u.dot(v) == xx + yy + zz);
    assert(u.cross(v).norm_sq() == (yz - zy) * (yz - zy) + (zx - xz) * (zx - xz) + (xy - yx) * (xy
        - yx));
}

/// The squared length of a combination of two vectors with whole factors.
pub proof fn lemma_norm_of_combination(u: V3, v: V3, j: int, k: int)
    ensures
        u.multiple(j).plus(v.multiple(k)).norm_sq() == (j * j) * u.norm_sq() + (2 * (j * k))
            * u.dot(v) + (k * k) * v.norm_sq(),
{
    lemma_square_of_combination(u.x, j, v.x, k);
    lemma_square_of_combination(u.y, j, v.y, k);
    lemma_square_of_combination(u.z, j, v.z, k);
    lemma_distribute(j * j, u.x * u.x, u.y * u.y, u.z * u.z);
    lemma_distribute(k * k, v.x * v.x, v.y * v.y, v.z * v.z);
    lemma_distribute(2 * (j * k), u.x * v.x, u.y * v.y, u.z * v.z);
}

/// A component of a vector does not exceed a number whose square is at
/// least the squared length of the vector.
pub proof fn lemma_component_bound(v: V3, reach: int)
    requires
        reach >= 0,
        v.norm_sq() <= reach * reach,
    ensures
        v.within(reach),
{
    lemma_norm_sq_sign(v);
    assert(-reach <= v.x <= reach) by (nonlinear_arith)
        requires
            reach >= 0,
            v.x * v.x <= reach * reach,
    ;
    assert(-reach <= v.y <= reach) by (nonlinear_arith)
        requires
            reach >= 0,
            v.y * v.y <= reach * reach,
    ;
    assert(-reach <= v.z <= reach) by (nonlinear_arith)
        requires
            reach >= 0,
            v.z * v.z <= reach * reach,
    ;
}

} // verus!
