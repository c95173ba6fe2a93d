//! Three-dimensional vectors with fixed-point components.

use vstd::prelude::*;
use crate::fixed::{
    floor_div, isqrt, lemma_div_exact, lemma_div_le, lemma_mul_bound, lemma_sqrt_floor,
    sqrt_floor, wide_mul, ONE,
};

verus! {

/// Largest magnitude of a component on which the operations of `Vec3` work:
/// with it, a dot product fits the wide integers and a sum the scalars.
pub const VEC_MAX: i64 = 0x2000_0000_0000_0000;

/// A vector of three integers: what a `Vec3` stands for in contracts.
pub struct V3 {
    pub x: int,
    pub y: int,
    pub z: int,
}

impl V3 {
    /// The exact dot product, in units of `1 / ONE^2`.
    pub open spec fn dot(self, other: V3) -> int {
        self.x * other.x + self.y * other.y + self.z * other.z
    }

    /// The sum of two vectors.
    pub open spec fn plus(self, other: V3) -> V3 {
        V3 { x: self.x + other.x, y: self.y + other.y, z: self.z + other.z }
    }

    /// The difference of two vectors.
    pub open spec fn minus(self, other: V3) -> V3 {
        V3 { x: self.x - other.x, y: self.y - other.y, z: self.z - other.z }
    }

    /// The opposite vector.
    pub open spec fn neg(self) -> V3 {
        V3 { x: -self.x, y: -self.y, z: -self.z }
    }

    /// This vector multiplied by the scalar `t`, each component rounded down.
    pub open spec fn times(self, t: int) -> V3 {
        V3 {
            x: self.x * t / (ONE as int),
            y: self.y * t / (ONE as int),
            z: self.z * t / (ONE as int),
        }
    }

    /// The cross product, in units of `1 / ONE^2`.
    pub open spec fn cross(self, other: V3) -> V3 {
        V3 {
            x: self.y * other.z - self.z * other.y,
            y: self.z * other.x - self.x * other.z,
            z: self.x * other.y - self.y * other.x,
        }
    }

    /// This vector multiplied by the whole number `k`.
    pub open spec fn multiple(self, k: int) -> V3 {
        V3 { x: self.x * k, y: self.y * k, z: self.z * k }
    }

    /// The exact square of the length, in units of `1 / ONE^2`.
    pub open spec fn norm_sq(self) -> int {
        self.dot(self)
    }

    /// The length as a scalar, rounded down.
    pub open spec fn length(self) -> int {
        sqrt_floor(self.norm_sq())
    }

    /// This vector divided by its length, each component rounded down.
    pub open spec fn normalized(self) -> V3 {
        V3 {
            x: self.x * ONE / self.length(),
            y: self.y * ONE / self.length(),
            z: self.z * ONE / self.length(),
        }
    }

    /// All components are zero.
    pub open spec fn is_zero(self) -> bool {
        self.x == 0 && self.y == 0 && self.z == 0
    }

    /// No component exceeds `bound` in magnitude.
    pub open spec fn within(self, bound: int) -> bool {
        &&& -bound <= self.x <= bound
        &&& -bound <= self.y <= bound
        &&& -bound <= self.z <= bound
    }
}

/// A vector or a point; each component is a scalar.
#[derive(Clone, Copy, Debug, PartialEq, Eq, Structural)]
pub struct Vec3 {
    pub x: i64,
    pub y: i64,
    pub z: i64,
}

impl View for Vec3 {
    type V = V3;

    open spec fn view(&self) -> V3 {
        V3 { x: self.x as int, y: self.y as int, z: self.z as int }
    }
}

/// The dot product of two bounded vectors is bounded.
pub proof fn lemma_dot_bound(u: V3, v: V3, mu: int, mv: int)
    requires
        u.within(mu),
        v.within(mv),
    ensures
        -3 * (mu * mv) <= u.dot(v) <= 3 * (mu * mv),
{
    lemma_mul_bound(u.x, v.x, mu, mv);
    lemma_mul_bound(u.y, v.y, mu, mv);
    lemma_mul_bound(u.z, v.z, mu, mv);
}

/// The squared length is not negative, and positive unless the vector is zero.
pub proof fn lemma_norm_sq_sign(v: V3)
    ensures
        v.norm_sq() >= 0,
        v.norm_sq() >= v.x * v.x,
        v.norm_sq() >= v.y * v.y,
        v.norm_sq() >= v.z * v.z,
        v.is_zero() <==> v.norm_sq() == 0,
{
    assert(v.x * v.x >= 0 && (v.x != 0 ==> v.x * v.x >= 1)) by (nonlinear_arith);
    assert(v.y * v.y >= 0 && (v.y != 0 ==> v.y * v.y >= 1)) by (nonlinear_arith);
    assert(v.z * v.z >= 0 && (v.z != 0 ==> v.z * v.z >= 1)) by (nonlinear_arith);
}

/// The length is at least the magnitude of each component, so at least one
/// unless the vector is zero, and less than twice the largest component.
pub proof fn lemma_length_bounds(v: V3, m: int)
    requires
        v.within(m),
    ensures
        v.length() >= 0,
        v.length() >= v.x && v.length() >= -v.x,
        v.length() >= v.y && v.length() >= -v.y,
        v.length() >= v.z && v.length() >= -v.z,
        !v.is_zero() ==> v.length() >= 1,
        v.length() <= 2 * m,
{
    lemma_norm_sq_sign(v);
    lemma_sqrt_floor(v.norm_sq());
    let n = v.norm_sq();
    let r = v.length();
    assert(r >= v.x && r >= -v.x) by (nonlinear_arith)
        requires
            r >= 0,
            n < (r + 1) * (r + 1),
            n >= v.x * v.x,
    ;
    assert(r >= v.y && r >= -v.y) by (nonlinear_arith)
        requires
            r >= 0,
            n < (r + 1) * (r + 1),
            n >= v.y * v.y,
    ;
    assert(r >= v.z && r >= -v.z) by (nonlinear_arith)
        requires
            r >= 0,
            n < (r + 1) * (r + 1),
            n >= v.z * v.z,
    ;
    lemma_dot_bound(v, v, m, m);
    assert(r <= 2 * m) by (nonlinear_arith)
        requires
            r >= 0,
            m >= 0,
            r * r <= n,
            n <= 3 * (m * m),
    ;
}

/// The largest magnitude among the components of a vector.
pub open spec fn largest(v: V3) -> int {
    let ax = if v.x >= 0 { v.x } else { -v.x };
    let ay = if v.y >= 0 { v.y } else { -v.y };
    let az = if v.z >= 0 { v.z } else { -v.z };
    if ax >= ay && ax >= az {
        ax
    } else if ay >= az {
        ay
    } else {
        az
    }
}

/// The squared length of a vector lies between the square of its largest
/// component and three times as much.
pub proof fn lemma_largest(v: V3)
    ensures
        largest(v) >= 0,
        v.within(largest(v)),
        largest(v) * largest(v) <= v.norm_sq() <= 3 * (largest(v) * largest(v)),
        largest(v) == 0 <==> v.is_zero(),
{
    let m = largest(v);
    assert(m * m <= v.x * v.x + v.y * v.y + v.z * v.z <= 3 * (m * m)) by (nonlinear_arith)
        requires
            -m <= v.x <= m,
            -m <= v.y <= m,
            -m <= v.z <= m,
            m == v.x || m == -v.x || m == v.y || m == -v.y || m == v.z || m == -v.z,
    ;
}

/// A number that does not exceed `len` in magnitude, multiplied by `ONE`
/// and divided by `len`, does not exceed `ONE` in magnitude.
pub proof fn lemma_unit_quotient(c: int, len: int)
    requires
        len >= 1,
        -len <= c <= len,
    ensures
        -ONE <= c * ONE / len <= ONE,
{
    let one = ONE as int;
    assert(-(one * len) <= c * one <= one * len) by (nonlinear_arith)
        requires
            -len <= c <= len,
            one == 32768,
    ;
    lemma_div_le(c * one, one * len, len);
    lemma_div_le(-(one * len), c * one, len);
    lemma_div_exact(one, len);
    lemma_div_exact(-one, len);
    assert((-one) * len == -(one * len)) by (nonlinear_arith);
}

/// The components of a normalized vector do not exceed `ONE` in magnitude.
pub proof fn lemma_normalized_within(v: V3)
    requires
        !v.is_zero(),
    ensures
        v.normalized().within(ONE as int),
{
    lemma_largest(v);
    lemma_length_bounds(v, largest(v));
    lemma_unit_quotient(v.x, v.length());
    lemma_unit_quotient(v.y, v.length());
    lemma_unit_quotient(v.z, v.length());
}

impl Vec3 {
    /// Every component is small enough for the operations of this type.
    pub open spec fn in_range(&self) -> bool {
        self@.within(VEC_MAX as int)
    }

    /// Tells whether no component exceeds `bound` in magnitude.
    pub fn is_within(&self, bound: i64) -> (b: bool)
        ensures
            b == self@.within(bound as int),
    {
        bound >= 0 && -bound <= self.x && self.x <= bound && -bound <= self.y && self.y <= bound
            && -bound <= self.z && self.z <= bound
    }

    /// Tells whether this is the zero vector.
    pub fn is_zero(&self) -> (b: bool)
        ensures
            b == self@.is_zero(),
    {
        self.x == 0 && self.y == 0 && self.z == 0
    }

    /// The vector with the given components.
    pub fn new(x: i64, y: i64, z: i64) -> (v: Vec3)
        ensures
            v == (Vec3 { x, y, z }),
    {
        Vec3 { x, y, z }
    }

    /// The exact dot product, in units of `1 / ONE^2`.
    pub fn dot_wide(&self, other: &Vec3) -> (d: i128)
        requires
            self.in_range(),
            other.in_range(),
        ensures
            d == self@.dot(other@),
    {
        proof {
            lemma_mul_bound(self.x as int, other.x as int, VEC_MAX as int, VEC_MAX as int);
            lemma_mul_bound(self.y as int, other.y as int, VEC_MAX as int, VEC_MAX as int);
            lemma_mul_bound(self.z as int, other.z as int, VEC_MAX as int, VEC_MAX as int);
        }
        wide_mul(self.x, other.x) + wide_mul(self.y, other.y) + wide_mul(self.z, other.z)
    }

    /// The dot product as a scalar, rounded down.
    pub fn dot(&self, other: &Vec3) -> (d: i64)
        requires
            self.in_range(),
            other.in_range(),
            i64::MIN <= self@.dot(other@) / (ONE as int) <= i64::MAX,
        ensures
            d == self@.dot(other@) / (ONE as int),
    {
        let wide: i128 = self.dot_wide(other);
        floor_div(wide, ONE as i128) as i64
    }

    /// The difference of two vectors.
    pub fn sub(&self, other: &Vec3) -> (v: Vec3)
        requires
            self.in_range(),
            other.in_range(),
        ensures
            v@ == self@.minus(other@),
    {
        Vec3 { x: self.x - other.x, y: self.y - other.y, z: self.z - other.z }
    }

    /// The sum of two vectors.
    pub fn add(&self, other: &Vec3) -> (v: Vec3)
        requires
            self.in_range(),
            other.in_range(),
        ensures
            v@ == self@.plus(other@),
    {
        Vec3 { x: self.x + other.x, y: self.y + other.y, z: self.z + other.z }
    }

    /// Multiplies each component by the scalar `t`, rounding down.
    pub fn scale(&self, t: i64) -> (v: Vec3)
        requires
            self@.times(t as int).within(i64::MAX as int),
        ensures
            v@ == self@.times(t as int),
    {
        Vec3 {
            x: scale_component(self.x, t),
            y: scale_component(self.y, t),
            z: scale_component(self.z, t),
        }
    }

    /// The length as a scalar, rounded down.
    pub fn length(&self) -> (l: i64)
        requires
            self.in_range(),
        ensures
            l == self@.length(),
    {
        let n: i128 = self.dot_wide(self);
        proof {
            lemma_norm_sq_sign(self@);
            lemma_length_bounds(self@, VEC_MAX as int);
        }
        let r: i128 = isqrt(n);
        r as i64
    }

    /// The vector of length one with the direction of this one, each
    /// component rounded down. The zero vector has no direction.
    pub fn normalize(&self) -> (v: Vec3)
        requires
            self.in_range(),
            !self@.is_zero(),
        ensures
            v@ == self@.normalized(),
            v@.within(ONE as int),
    {
        let len: i64 = self.length();
        proof {
            lemma_length_bounds(self@, VEC_MAX as int);
        }
        Vec3 {
            x: normalize_component(self.x, len),
            y: normalize_component(self.y, len),
            z: normalize_component(self.z, len),
        }
    }
}

fn scale_component(c: i64, t: i64) -> (r: i64)
    requires
        -i64::MAX <= c * t / (ONE as int) <= i64::MAX,
    ensures
        r == c * t / (ONE as int),
{
    floor_div(wide_mul(c, t), ONE as i128) as i64
}

fn normalize_component(c: i64, len: i64) -> (r: i64)
    requires
        len >= 1,
        -len <= c <= len,
    ensures
        r == c * ONE / (len as int),
        -ONE <= r <= ONE,
{
    let product: i128 = wide_mul(c, ONE);
    proof {
        lemma_unit_quotient(c as int, len as int);
    }
    floor_div(product, len as i128) as i64
}

} // verus!
