//! What holds of the intersection of a ray with a sphere, and of the
//! closest hit among several spheres.

use vstd::prelude::*;
use crate::algebra::{
    lemma_component_bound, lemma_distribute, lemma_lagrange, lemma_norm_of_combination,
};
use crate::fixed::{lemma_sqrt_floor, sqrt_floor, INFINITY, ONE, RAY_MAX, WORLD_MAX};
use crate::geometry::{
    closest_hit, consider, discriminant, lemma_discriminant, lemma_roots_are_finite, quad_b,
    ray_sphere_roots, root,
};
use crate::scene::Sphere;
use crate::vector::{lemma_norm_sq_sign, V3};

verus! {

/// The line of the ray stays farther from the centre of the sphere than
/// its radius. `co` leads from the centre to the origin of the ray; the
/// distance between the centre and the line is the length of the cross
/// product of `co` and the direction, divided by the length of the
/// direction.
pub open spec fn line_passes_outside(co: V3, direction: V3, radius: int) -> bool {
    co.cross(direction).norm_sq() > radius * radius * direction.norm_sq()
}

/// The line of the ray comes closer to the centre of the sphere than its
/// radius.
pub open spec fn line_passes_through(co: V3, direction: V3, radius: int) -> bool {
    co.cross(direction).norm_sq() < radius * radius * direction.norm_sq()
}

/// A ray whose line stays farther from the centre of a sphere than its
/// radius does not meet the sphere: both roots are `INFINITY`. No other
/// ray has a negative discriminant.
pub proof fn lemma_distant_ray_misses(origin: V3, direction: V3, center: V3, radius: int)
    ensures
        line_passes_outside(origin.minus(center), direction, radius) <==> discriminant(
            origin.minus(center),
            direction,
            radius,
        ) < 0,
        line_passes_outside(origin.minus(center), direction, radius) ==> ray_sphere_roots(
            origin,
            direction,
            center,
            radius,
        ) == (INFINITY as int, INFINITY as int),
{
    lemma_discriminant(origin.minus(center), direction, radius);
}

/// What holds of the two roots of a ray that starts outside a sphere and
/// whose line passes through it.
///
/// Both roots are finite, the first is not the smaller one, and they lie
/// on the same side of the origin. The ray point half way between them
/// lies within the sphere, up to the step of the ray parameter: the square
/// of its distance from the centre is less than the squared radius plus
/// the squared length of `direction / ONE`. (The inequality is stated for
/// twice the vector from the centre to that point, in units of `1 / ONE`.)
pub proof fn lemma_piercing_ray(origin: V3, direction: V3, center: V3, radius: int)
    requires
        origin.within(WORLD_MAX as int),
        center.within(WORLD_MAX as int),
        direction.within(RAY_MAX as int),
        0 < radius <= WORLD_MAX,
        origin.minus(center).norm_sq() > radius * radius,
        line_passes_through(origin.minus(center), direction, radius),
    ensures
        ({
            let roots = ray_sphere_roots(origin, direction, center, radius);
            let co = origin.minus(center);
            &&& -INFINITY < roots.1 <= roots.0 < INFINITY
            &&& (roots.0 < 0) == (roots.1 < 0)
            &&& co.multiple(2 * ONE).plus(direction.multiple(roots.0 + roots.1)).norm_sq() < 4
                * (ONE * ONE) * (radius * radius) + 4 * direction.norm_sq()
        }),
{
    let co = origin.minus(center);
    let a = direction.norm_sq();
    let h = co.dot(direction);
    let n = co.norm_sq();
    let r2 = radius * radius;
    let x = co.cross(direction).norm_sq();
    let disc = discriminant(co, direction, radius);
    let one = ONE as int;
    lemma_lagrange(co, direction);
    lemma_discriminant(co, direction, radius);
    lemma_norm_sq_sign(direction);
    lemma_norm_sq_sign(co.cross(direction));
    assert(a >= 1) by (nonlinear_arith)
        requires
            x < r2 * a,
            x >= 0,
            a >= 0,
    ;
    assert(disc > 0);
    lemma_sqrt_floor(disc);
    let s = sqrt_floor(disc);
    let n1 = -2 * h + s;
    let n2 = -2 * h - s;
    let q1 = n1 * one / (2 * a);
    let q2 = n2 * one / (2 * a);
    assert(quad_b(co, direction) == 2 * h);
    // The roots have the sign of -h.
    assert(s * s < (2 * h) * (2 * h)) by (nonlinear_arith)
        requires
            s * s <= disc,
            disc == (2 * h) * (2 * h) - 4 * a * (n - r2),
            a >= 1,
            n > r2,
    ;
    assert((h > 0 && s < 2 * h) || (h < 0 && s < -2 * h)) by (nonlinear_arith)
        requires
            s * s < (2 * h) * (2 * h),
            s >= 0,
    ;
    crate::fixed::lemma_floor_div(n1 * one, 2 * a);
    crate::fixed::lemma_floor_div(n2 * one, 2 * a);
    assert((q1 < 0) == (q2 < 0)) by (nonlinear_arith)
        requires
            (h > 0 && s < 2 * h) || (h < 0 && s < -2 * h),
            n1 == -2 * h + s,
            n2 == -2 * h - s,
            s >= 0,
            a >= 1,
            one == 32768,
            (2 * a) * q1 <= n1 * one < (2 * a) * q1 + 2 * a,
            (2 * a) * q2 <= n2 * one < (2 * a) * q2 + 2 * a,
    ;
    crate::fixed::lemma_div_le(n2 * one, n1 * one, 2 * a);
    // The roots are finite.
    lemma_roots_are_finite(co, direction, radius, s, n1);
    lemma_roots_are_finite(co, direction, radius, s, n2);
    assert(root(n1, a) == q1);
    assert(root(n2, a) == q2);
    // The point half way between them.
    let m = q1 + q2;
    let e = -2 * h * one - a * m;
    assert(0 <= e < 2 * a) by (nonlinear_arith)
        requires
            e == -2 * h * one - a * m,
            m == q1 + q2,
            n1 == -2 * h + s,
            n2 == -2 * h - s,
            (2 * a) * q1 <= n1 * one < (2 * a) * q1 + 2 * a,
            (2 * a) * q2 <= n2 * one < (2 * a) * q2 + 2 * a,
    ;
    lemma_norm_of_combination(co, direction, 2 * one, m);
    let p = co.multiple(2 * one).plus(direction.multiple(m)).norm_sq();
    assert(a * p == 4 * (one * one) * x + e * e) by {
        lemma_midpoint_identity(a, h, n, x, m, e, p);
    }
    assert(a * p < a * (4 * (one * one) * r2 + 4 * a)) by (nonlinear_arith)
        requires
            a * p == 4 * (one * one) * x + e * e,
            x < r2 * a,
            0 <= e < 2 * a,
            one == 32768,
    ;
    assert(p < 4 * (one * one) * r2 + 4 * a) by (nonlinear_arith)
        requires
            a * p < a * (4 * (one * one) * r2 + 4 * a),
            a >= 1,
    ;
}

/// A ray that starts inside a sphere leaves it ahead and has entered it
/// behind: the first root is not negative and the second not positive.
/// (A root of less than one unit rounds to zero, so neither needs to
/// differ from zero.)
pub proof fn lemma_inner_ray(origin: V3, direction: V3, center: V3, radius: int)
    requires
        !direction.is_zero(),
        origin.minus(center).norm_sq() < radius * radius,
    ensures
        ({
            let roots = ray_sphere_roots(origin, direction, center, radius);
            roots.1 <= 0 <= roots.0
        }),
{
    let co = origin.minus(center);
    let a = direction.norm_sq();
    let h = co.dot(direction);
    let n = co.norm_sq();
    let r2 = radius * radius;
    let disc = discriminant(co, direction, radius);
    let one = ONE as int;
    lemma_norm_sq_sign(direction);
    assert(quad_b(co, direction) == 2 * h);
    assert(disc >= (2 * h) * (2 * h) && (2 * h) * (2 * h) >= 0) by (nonlinear_arith)
        requires
            disc == (2 * h) * (2 * h) - 4 * a * (n - r2),
            a >= 1,
            n < r2,
    ;
    lemma_sqrt_floor(disc);
    let s = sqrt_floor(disc);
    assert(s >= 2 * h && s >= -2 * h) by (nonlinear_arith)
        requires
            s >= 0,
            disc < (s + 1) * (s + 1),
            disc >= (2 * h) * (2 * h),
    ;
    let n1 = -2 * h + s;
    let n2 = -2 * h - s;
    assert(n1 * one >= 0 && n2 * one <= 0) by (nonlinear_arith)
        requires
            n1 >= 0,
            n2 <= 0,
            one == 32768,
    ;
    crate::fixed::lemma_div_le(0, n1 * one, 2 * a);
    crate::fixed::lemma_div_le(n2 * one, 0, 2 * a);
    crate::fixed::lemma_div_exact(0, 2 * a);
    assert(0 * (2 * a) == 0) by (nonlinear_arith);
}

/// The algebra behind the point half way between the roots.
proof fn lemma_midpoint_identity(a: int, h: int, n: int, x: int, m: int, e: int, p: int)
    requires
        n * a == h * h + x,
        e == -2 * h * ONE - a * m,
        p == (2 * ONE * (2 * ONE)) * n + (2 * (2 * ONE * m)) * h + (m * m) * a,
    ensures
        a * p == 4 * (ONE * ONE) * x + e * e,
{
    let am = a * m;
    let c1: int = 0x1_0000_0000;
    let c2: int = 0x2_0000;
    assert(p == c1 * n + c2 * (m * h) + (m * m) * a) by (nonlinear_arith)
        requires
            p == (2 * 32768 * (2 * 32768)) * n + (2 * (2 * 32768 * m)) * h + (m * m) * a,
            c1 == 0x1_0000_0000,
            c2 == 0x2_0000,
    ;
    lemma_distribute(a, c1 * n, c2 * (m * h), (m * m) * a);
    assert(a * (c1 * n) == c1 * (n * a)) by (nonlinear_arith);
    assert(a * (c2 * (m * h)) == c2 * (h * am)) by (nonlinear_arith)
        requires
            am == a * m,
    ;
    assert(a * ((m * m) * a) == am * am) by (nonlinear_arith)
        requires
            am == a * m,
    ;
    assert(a * p == c1 * (n * a) + c2 * (h * am) + am * am);
    assert(am == -0x1_0000 * h - e) by (nonlinear_arith)
        requires
            e == -2 * h * 32768 - a * m,
            am == a * m,
    ;
    assert(c2 * (h * am) + am * am == e * e - c1 * (h * h)) by (nonlinear_arith)
        requires
            am == -0x1_0000 * h - e,
            c1 == 0x1_0000_0000,
            c2 == 0x2_0000,
    ;
    assert(c1 * (n * a) == c1 * (h * h) + c1 * x) by (nonlinear_arith)
        requires
            n * a == h * h + x,
    ;
}

/// The algebra behind the distance of a root's ray point from the centre.
proof fn lemma_root_identity(
    a: int,
    h: int,
    n: int,
    r2: int,
    disc: int,
    s: int,
    sign: int,
    t: int,
    e: int,
    q: int,
)
    requires
        disc == (2 * h) * (2 * h) - 4 * a * (n - r2),
        sign == 1 || sign == -1,
        e == (-2 * h + sign * s) * ONE - (2 * a) * t,
        q == (ONE * ONE) * n + (2 * (ONE * t)) * h + (t * t) * a,
    ensures
        4 * a * (q - (ONE * ONE) * r2) == e * e - 2 * sign * (ONE * s * e) - (ONE * ONE) * (disc - s
            * s),
{
    let one: int = 32768;
    let k: int = one * one;
    let m = 2 * a * t;
    let g = sign * s;
    assert(m == one * (-2 * h + g) - e) by (nonlinear_arith)
        requires
            e == (-2 * h + sign * s) * 32768 - (2 * a) * t,
            m == 2 * a * t,
            g == sign * s,
            one == 32768,
    ;
    assert(q == k * n + (2 * one * t) * h + (t * t) * a) by (nonlinear_arith)
        requires
            q == (32768 * 32768) * n + (2 * (32768 * t)) * h + (t * t) * a,
            k == 32768 * 32768,
            one == 32768,
    ;
    lemma_distribute(4 * a, k * n, (2 * one * t) * h, (t * t) * a);
    assert((4 * a) * (k * n) == 4 * k * (a * n)) by (nonlinear_arith);
    assert((4 * a) * ((2 * one * t) * h) == 4 * one * (h * m)) by (nonlinear_arith)
        requires
            m == 2 * a * t,
    ;
    assert((4 * a) * ((t * t) * a) == m * m) by (nonlinear_arith)
        requires
            m == 2 * a * t,
    ;
    assert(4 * a * q == 4 * k * (a * n) + 4 * one * (h * m) + m * m);
    let w = one * g - e;
    assert(m == w - 2 * one * h);
    assert(4 * one * (h * m) + m * m == w * w - 4 * k * (h * h)) by (nonlinear_arith)
        requires
            m == w - 2 * one * h,
            k == one * one,
    ;
    assert(w * w == k * (g * g) - 2 * (one * g * e) + e * e) by (nonlinear_arith)
        requires
            w == one * g - e,
            k == one * one,
    ;
    assert(g * g == s * s && one * g * e == sign * (one * s * e)) by (nonlinear_arith)
        requires
            g == sign * s,
            sign == 1 || sign == -1,
    ;
    assert(disc == 4 * (h * h) - 4 * (a * n) + 4 * (a * r2)) by (nonlinear_arith)
        requires
            disc == (2 * h) * (2 * h) - 4 * a * (n - r2),
    ;
    assert(4 * k * (a * n) - 4 * k * (h * h) == 4 * k * (a * r2) - k * disc) by (nonlinear_arith)
        requires
            disc == 4 * (h * h) - 4 * (a * n) + 4 * (a * r2),
            k == 0x4000_0000,
    ;
    assert(4 * a * (k * r2) == 4 * k * (a * r2)) by (nonlinear_arith);
    assert(4 * a * (q - k * r2) == 4 * a * q - 4 * a * (k * r2)) by (nonlinear_arith);
    assert(k * (disc - s * s) == k * disc - k * (s * s)) by (nonlinear_arith);
}

/// The ray point at a root lies on the sphere, up to the rounding
/// of the square root and of the root itself.
///
/// Let `q` be the square of the distance between that point and the centre
/// (as a whole number: the squared length of `ONE co + t direction`), `a`
/// the squared length of the direction and `s` the rounded square root of
/// the discriminant. Then `q` exceeds the squared radius by no more than
/// `a + ONE s`, falls short of it by no more than `ONE s (2 a + ONE) / (2 a)`,
/// and the distance itself exceeds the radius by less than the length of
/// `direction / ONE` plus one unit.
pub proof fn lemma_root_lies_on_sphere(origin: V3, direction: V3, center: V3, radius: int, t: int)
    requires
        !direction.is_zero(),
        radius >= 0,
        discriminant(origin.minus(center), direction, radius) >= 0,
        t == ray_sphere_roots(origin, direction, center, radius).0 || t == ray_sphere_roots(
            origin,
            direction,
            center,
            radius,
        ).1,
    ensures
        ({
            let co = origin.minus(center);
            let a = direction.norm_sq();
            let s = sqrt_floor(discriminant(co, direction, radius));
            let q = co.multiple(ONE as int).plus(direction.multiple(t)).norm_sq();
            let excess = q - (ONE * ONE) * (radius * radius);
            let reach = ONE * radius + direction.length() + 1;
            &&& a >= 1 && s >= 0
            &&& s <= 2 * (radius * (direction.length() + 1))
            &&& 4 * a * excess <= 4 * a * (a + ONE * s)
            &&& 4 * a * excess >= -(2 * (ONE * s) * (2 * a + ONE))
            &&& q <= reach * reach
        }),
{
    let co = origin.minus(center);
    let a = direction.norm_sq();
    let h = co.dot(direction);
    let n = co.norm_sq();
    let r2 = radius * radius;
    let x = co.cross(direction).norm_sq();
    let disc = discriminant(co, direction, radius);
    let one = ONE as int;
    lemma_norm_sq_sign(direction);
    lemma_norm_sq_sign(co.cross(direction));
    lemma_discriminant(co, direction, radius);
    lemma_sqrt_floor(disc);
    lemma_sqrt_floor(a);
    let s = sqrt_floor(disc);
    let roots = ray_sphere_roots(origin, direction, center, radius);
    let sign: int = if t == roots.0 { 1 } else { -1 };
    let numer = -2 * h + sign * s;
    assert(quad_b(co, direction) == 2 * h);
    assert(sign * s == if sign == 1 { s } else { -s }) by (nonlinear_arith)
        requires
            sign == 1 || sign == -1,
    ;
    assert(t == root(numer, a));
    assert(t == numer * one / (2 * a));
    crate::fixed::lemma_floor_div(numer * one, 2 * a);
    let e = numer * one - (2 * a) * t;
    assert(0 <= e < 2 * a);
    lemma_norm_of_combination(co, direction, one, t);
    let q = co.multiple(one).plus(direction.multiple(t)).norm_sq();
    assert(q == (one * one) * n + (2 * (one * t)) * h + (t * t) * a);
    assert(disc == (2 * h) * (2 * h) - 4 * a * (n - r2)) by (nonlinear_arith)
        requires
            disc == (2 * h) * (2 * h) - 4 * a * (n - radius * radius),
            r2 == radius * radius,
    ;
    lemma_root_identity(a, h, n, r2, disc, s, sign, t, e, q);
    let excess = q - (one * one) * r2;
    let delta = disc - s * s;
    assert(0 <= delta <= 2 * s) by (nonlinear_arith)
        requires
            delta == disc - s * s,
            s * s <= disc,
            disc < (s + 1) * (s + 1),
    ;
    let ese = one * s * e;
    assert(0 <= ese <= one * s * (2 * a) && one * s * (2 * a) == 2 * a * (one * s)) by (nonlinear_arith)
        requires
            ese == one * s * e,
            0 <= e < 2 * a,
            s >= 0,
            one == 32768,
    ;
    assert(0 <= e * e <= 4 * a * a) by (nonlinear_arith)
        requires
            0 <= e < 2 * a,
    ;
    assert(0 <= (one * one) * delta <= 2 * (one * s) * one) by (nonlinear_arith)
        requires
            0 <= delta <= 2 * s,
            one == 32768,
    ;
    assert(4 * a * (a + one * s) == 4 * a * a + 2 * (2 * a * (one * s))) by (nonlinear_arith);
    assert(2 * (one * s) * (2 * a + one) == 2 * (2 * a * (one * s)) + 2 * (one * s) * one)
        by (nonlinear_arith);
    assert(4 * a * excess <= 4 * a * (a + one * s));
    assert(4 * a * excess >= -(2 * (one * s) * (2 * a + one)));
    // The distance itself.
    let len = direction.length() + 1;
    let reach = one * radius + len;
    assert(a < len * len);
    assert(s <= 2 * (radius * len)) by (nonlinear_arith)
        requires
            0 <= s,
            s * s <= 4 * (radius * radius * a - x),
            x >= 0,
            a < len * len,
            radius >= 0,
            len >= 1,
    {
        assert(s * s <= (2 * (radius * len)) * (2 * (radius * len)));
        if s > 2 * (radius * len) {
            assert(s * s > (2 * (radius * len)) * (2 * (radius * len)));
        }
    }
    assert(excess <= a + one * s) by (nonlinear_arith)
        requires
            4 * a * excess <= 4 * a * (a + one * s),
            a >= 1,
    ;
    assert(reach * reach == (one * one) * r2 + 2 * (one * (radius * len)) + len * len)
        by (nonlinear_arith)
        requires
            reach == one * radius + len,
            r2 == radius * radius,
    ;
    assert(one * s <= 2 * (one * (radius * len))) by (nonlinear_arith)
        requires
            s <= 2 * (radius * len),
            one == 32768,
    ;
}

/// One coordinate of the hit point, counted from the centre.
proof fn lemma_hit_coordinate(origin: int, center: int, direction: int, t: int, reach: int)
    requires
        reach >= 0,
        -(ONE * reach) <= (origin - center) * ONE + direction * t <= ONE * reach,
    ensures
        -reach <= origin + direction * t / (ONE as int) - center <= reach,
{
    let one = ONE as int;
    let y = direction * t;
    assert(((origin - center) * one + y) / one == (origin - center) + y / one) by (nonlinear_arith)
        requires
            one == 32768,
    ;
    crate::fixed::lemma_div_le((origin - center) * one + y, one * reach, one);
    crate::fixed::lemma_div_le(-(one * reach), (origin - center) * one + y, one);
    crate::fixed::lemma_div_exact(reach, one);
    crate::fixed::lemma_div_exact(-reach, one);
    assert(one * reach == reach * one && -(one * reach) == (-reach) * one) by (nonlinear_arith);
}

/// The point of the ray at a root lies near the sphere: none of its
/// coordinates is farther from the centre's than the radius, the length
/// of `direction / ONE` and two units together.
pub proof fn lemma_hit_point_near_sphere(
    origin: V3,
    direction: V3,
    center: V3,
    radius: int,
    t: int,
)
    requires
        !direction.is_zero(),
        radius >= 0,
        discriminant(origin.minus(center), direction, radius) >= 0,
        t == ray_sphere_roots(origin, direction, center, radius).0 || t == ray_sphere_roots(
            origin,
            direction,
            center,
            radius,
        ).1,
    ensures
        origin.plus(direction.times(t)).minus(center).within(
            radius + direction.length() / (ONE as int) + 2,
        ),
{
    let co = origin.minus(center);
    let one = ONE as int;
    lemma_root_lies_on_sphere(origin, direction, center, radius, t);
    lemma_norm_sq_sign(direction);
    lemma_sqrt_floor(direction.norm_sq());
    let len = direction.length();
    let reach = one * radius + len + 1;
    let q = co.multiple(one).plus(direction.multiple(t));
    lemma_component_bound(q, reach);
    let near = radius + len / one + 2;
    crate::fixed::lemma_floor_div(len, one);
    assert(reach <= one * near) by (nonlinear_arith)
        requires
            reach == one * radius + len + 1,
            near == radius + len / one + 2,
            len < one * (len / one) + one,
            one == 32768,
    ;
    lemma_hit_coordinate(origin.x, center.x, direction.x, t, near);
    lemma_hit_coordinate(origin.y, center.y, direction.y, t, near);
    lemma_hit_coordinate(origin.z, center.z, direction.z, t, near);
}

/// `t` is one of the two roots of the ray with the sphere at `index`.
pub open spec fn is_root(origin: V3, direction: V3, spheres: Seq<Sphere>, index: int, t: int) -> bool {
    let roots = ray_sphere_roots(
        origin,
        direction,
        spheres[index].center@,
        spheres[index].radius as int,
    );
    t == roots.0 || t == roots.1
}

/// The parameter `t` lies in the interval and is finite, so a root with
/// this value is a hit.
pub open spec fn counts(t: int, t_min: int, t_max: int) -> bool {
    t_min <= t <= t_max && t < INFINITY
}

/// The closest hit is the smallest root that counts, with the first
/// sphere that has it; there is none only where no root counts.
pub proof fn lemma_closest_hit(origin: V3, direction: V3, t_min: int, t_max: int, spheres: Seq<Sphere>)
    ensures
        match closest_hit(origin, direction, t_min, t_max, spheres) {
            Some(hit) => {
                &&& 0 <= hit.index < spheres.len()
                &&& is_root(origin, direction, spheres, hit.index, hit.t)
                &&& counts(hit.t, t_min, t_max)
                &&& forall|j: int, t: int|
                    0 <= j < spheres.len() && #[trigger] is_root(origin, direction, spheres, j, t)
                        && counts(t, t_min, t_max) ==> hit.t <= t && (t == hit.t ==> hit.index <= j)
            },
            None => forall|j: int, t: int|
                0 <= j < spheres.len() && #[trigger] is_root(origin, direction, spheres, j, t)
                    ==> !counts(t, t_min, t_max),
        },
    decreases spheres.len(),
{
    if spheres.len() > 0 {
        let last = spheres.len() - 1;
        let front = spheres.drop_last();
        lemma_closest_hit(origin, direction, t_min, t_max, front);
        assert forall|j: int, t: int| 0 <= j < last implies is_root(origin, direction, front, j, t)
            == is_root(origin, direction, spheres, j, t) by {
            assert(front[j] == spheres[j]);
        }
        let before = closest_hit(origin, direction, t_min, t_max, front);
        let roots = ray_sphere_roots(
            origin,
            direction,
            spheres[last].center@,
            spheres[last].radius as int,
        );
        let middle = consider(before, last, roots.0, t_min, t_max);
        let after = consider(middle, last, roots.1, t_min, t_max);
        assert(after == closest_hit(origin, direction, t_min, t_max, spheres));
        match after {
            Some(hit) => {
                assert forall|j: int, t: int|
                    0 <= j < spheres.len() && #[trigger] is_root(origin, direction, spheres, j, t)
                        && counts(t, t_min, t_max) implies hit.t <= t && (t == hit.t ==> hit.index
                    <= j) by {
                    if j < last {
                        assert(is_root(origin, direction, front, j, t));
                    }
                }
            },
            None => {
                assert forall|j: int, t: int|
                    0 <= j < spheres.len() && #[trigger] is_root(
                        origin,
                        direction,
                        spheres,
                        j,
                        t,
                    ) implies !counts(t, t_min, t_max) by {
                    if j < last {
                        assert(is_root(origin, direction, front, j, t));
                    }
                }
            },
        }
    }
}

} // verus!
