//! Projection of pixels onto the viewport, and intersection of rays with
//! spheres.

use vstd::prelude::*;
use crate::error::TraceError;
use crate::algebra::lemma_lagrange;
use crate::fixed::{
    floor_div, isqrt, lemma_div_exact, lemma_div_le, lemma_div_magnitude, lemma_mul_bound,
    sqrt_floor, wide_mul, INFINITY, ONE, RAY_MAX, ROOT_MAX, WORLD_MAX,
};
use crate::scene::{spheres_wf, Sphere};
use crate::vector::{lemma_dot_bound, lemma_norm_sq_sign, Vec3, V3};

verus! {

/// The direction from the camera through a pixel of the canvas. The pixel
/// `(0, 0)` is the centre of the canvas, and rows count downwards.
pub open spec fn viewport_direction(
    px: int,
    py: int,
    canvas_width: int,
    canvas_height: int,
    viewport_size: int,
    projection_plane_distance: int,
) -> V3 {
    V3 {
        x: px * viewport_size / canvas_width,
        y: (-py) * viewport_size / canvas_height,
        z: projection_plane_distance,
    }
}

/// Coefficient of `t^2` in the equation of ray and sphere.
pub open spec fn quad_a(direction: V3) -> int {
    direction.dot(direction)
}

/// Coefficient of `t` in the equation of ray and sphere; `co` leads from the
/// centre of the sphere to the origin of the ray.
pub open spec fn quad_b(co: V3, direction: V3) -> int {
    2 * co.dot(direction)
}

/// Constant term of the equation of ray and sphere.
pub open spec fn quad_c(co: V3, radius: int) -> int {
    co.dot(co) - radius * radius
}

/// Discriminant of the equation of ray and sphere.
pub open spec fn discriminant(co: V3, direction: V3, radius: int) -> int {
    quad_b(co, direction) * quad_b(co, direction) - 4 * quad_a(direction) * quad_c(co, radius)
}

/// The ray parameter `numer / (2 a)` as a scalar, rounded down.
pub open spec fn root(numer: int, a: int) -> int {
    numer * ONE / (2 * a)
}

/// The two parameters at which the ray meets the sphere, the one with the
/// added square root first; both are `INFINITY` where it does not meet it.
pub open spec fn ray_sphere_roots(origin: V3, direction: V3, center: V3, radius: int) -> (int, int) {
    let co = origin.minus(center);
    let a = quad_a(direction);
    let b = quad_b(co, direction);
    let disc = discriminant(co, direction, radius);
    if disc < 0 {
        (INFINITY as int, INFINITY as int)
    } else {
        (root(-b + sqrt_floor(disc), a), root(-b - sqrt_floor(disc), a))
    }
}

/// A sphere of a sequence, by its index, and a ray parameter.
pub struct Hit {
    pub index: int,
    pub t: int,
}

/// The parameter of the closest hit so far, `INFINITY` before the first.
pub open spec fn best_t(hit: Option<Hit>) -> int {
    match hit {
        Some(h) => h.t,
        None => INFINITY as int,
    }
}

/// The closest hit once the root `t` of sphere `index` has been looked at:
/// `t` replaces the closest so far where it lies in the interval and is
/// strictly smaller.
pub open spec fn consider(hit: Option<Hit>, index: int, t: int, t_min: int, t_max: int) -> Option<
    Hit,
> {
    if t_min <= t <= t_max && t < best_t(hit) {
        Some(Hit { index, t })
    } else {
        hit
    }
}

/// The closest hit of the ray among the spheres: they are looked at in
/// order, each with its first root before its second.
pub open spec fn closest_hit(
    origin: V3,
    direction: V3,
    t_min: int,
    t_max: int,
    spheres: Seq<Sphere>,
) -> Option<Hit>
    decreases spheres.len(),
{
    if spheres.len() == 0 {
        None
    } else {
        let last = spheres.len() - 1;
        let before = closest_hit(origin, direction, t_min, t_max, spheres.drop_last());
        let roots = ray_sphere_roots(origin, direction, spheres[last].center@, spheres[last].radius as int);
        consider(consider(before, last, roots.0, t_min, t_max), last, roots.1, t_min, t_max)
    }
}

/// The discriminant is four times the difference between the squared
/// radius, multiplied by the squared length of the direction, and the
/// squared length of the cross product of `co` and the direction.
pub proof fn lemma_discriminant(co: V3, direction: V3, radius: int)
    ensures
        discriminant(co, direction, radius) == 4 * (radius * radius * direction.norm_sq()
            - co.cross(direction).norm_sq()),
{
    lemma_lagrange(co, direction);
    let a = direction.norm_sq();
    let h = co.dot(direction);
    let n = co.norm_sq();
    let r2 = radius * radius;
    let x = co.cross(direction).norm_sq();
    assert((2 * h) * (2 * h) - 4 * a * (n - r2) == 4 * (r2 * a - x)) by (nonlinear_arith)
        requires
            n * a == h * h + x,
    ;
}

/// Where a ray of the world meets a sphere of the world, its roots are far
/// from the ends of the scalars. `s` is the rounded square root of the
/// discriminant, or any smaller number.
pub proof fn lemma_roots_are_finite(co: V3, direction: V3, radius: int, s: int, numer: int)
    requires
        co.within(RAY_MAX as int),
        direction.within(RAY_MAX as int),
        0 < radius <= WORLD_MAX,
        !direction.is_zero(),
        0 <= s,
        s * s <= discriminant(co, direction, radius),
        numer == -2 * co.dot(direction) + s || numer == -2 * co.dot(direction) - s,
    ensures
        direction.norm_sq() >= 1,
        -0x8000_0000_0000_0000 <= numer <= 0x8000_0000_0000_0000,
        -ROOT_MAX <= root(numer, direction.norm_sq()) <= ROOT_MAX,
{
    let a = direction.norm_sq();
    let h = co.dot(direction);
    let x = co.cross(direction).norm_sq();
    let one = ONE as int;
    let big = RAY_MAX as int;
    // The largest component of the direction.
    let ax = if direction.x >= 0 { direction.x } else { -direction.x };
    let ay = if direction.y >= 0 { direction.y } else { -direction.y };
    let az = if direction.z >= 0 { direction.z } else { -direction.z };
    let d = if ax >= ay && ax >= az { ax } else if ay >= az { ay } else { az };
    assert(d >= 1);
    lemma_norm_sq_sign(direction);
    lemma_norm_sq_sign(co.cross(direction));
    lemma_discriminant(co, direction, radius);
    assert(d * d <= a <= 3 * (d * d)) by (nonlinear_arith)
        requires
            a == direction.x * direction.x + direction.y * direction.y + direction.z * direction.z,
            -d <= direction.x <= d,
            -d <= direction.y <= d,
            -d <= direction.z <= d,
            d == direction.x || d == -direction.x || d == direction.y || d == -direction.y || d
                == direction.z || d == -direction.z,
    ;
    lemma_mul_bound(co.x, direction.x, big, d);
    lemma_mul_bound(co.y, direction.y, big, d);
    lemma_mul_bound(co.z, direction.z, big, d);
    assert(-3 * (big * d) <= h <= 3 * (big * d));
    assert(s <= 2 * (big * d)) by (nonlinear_arith)
        requires
            0 <= s,
            s * s <= 4 * (radius * radius * a - x),
            x >= 0,
            a <= 3 * (d * d),
            0 < radius <= 0x2000_0000,
            big == 0x4000_0000,
            d >= 1,
    {
        assert(s * s <= 4 * (radius * radius) * (3 * (d * d)));
        assert(4 * (radius * radius) * (3 * (d * d)) <= (2 * (big * d)) * (2 * (big * d)));
        if s > 2 * (big * d) {
            assert(s * s > (2 * (big * d)) * (2 * (big * d)));
        }
    }
    assert(-8 * (big * d) <= numer <= 8 * (big * d));
    assert(8 * (big * d) <= 0x8000_0000_0000_0000) by (nonlinear_arith)
        requires
            1 <= d <= big,
            big == 0x4000_0000,
    ;
    let k = 4 * big * one;
    assert(-(k * (2 * a)) <= numer * one <= k * (2 * a)) by (nonlinear_arith)
        requires
            -8 * (big * d) <= numer <= 8 * (big * d),
            k == 4 * big * one,
            a >= d * d,
            d >= 1,
            one == 32768,
            big == 0x4000_0000,
    ;
    lemma_div_le(numer * one, k * (2 * a), 2 * a);
    lemma_div_le(-(k * (2 * a)), numer * one, 2 * a);
    lemma_div_exact(k, 2 * a);
    lemma_div_exact(-k, 2 * a);
    assert((-k) * (2 * a) == -(k * (2 * a))) by (nonlinear_arith);
    assert(k == 0x8000_0000_0000) by (nonlinear_arith)
        requires
            k == 4 * big * one,
            one == 32768,
            big == 0x4000_0000,
    ;
}

/// The direction from the camera through the pixel `(px, py)`, counted
/// from the centre of the canvas. It is not of length one.
pub fn canvas_to_viewport(
    px: i32,
    py: i32,
    canvas_width: u32,
    canvas_height: u32,
    viewport_size: i64,
    projection_plane_distance: i64,
) -> (direction: Vec3)
    requires
        canvas_width > 0,
        canvas_height > 0,
        -RAY_MAX <= viewport_size <= RAY_MAX,
    ensures
        direction@ == viewport_direction(
            px as int,
            py as int,
            canvas_width as int,
            canvas_height as int,
            viewport_size as int,
            projection_plane_distance as int,
        ),
{
    let across: i128 = wide_mul(px as i64, viewport_size);
    let up: i128 = wide_mul(-(py as i64), viewport_size);
    proof {
        lemma_mul_bound(px as int, viewport_size as int, 0x8000_0000, RAY_MAX as int);
        lemma_mul_bound(-(py as int), viewport_size as int, 0x8000_0000, RAY_MAX as int);
        lemma_div_magnitude(across as int, canvas_width as int);
        lemma_div_magnitude(up as int, canvas_height as int);
    }
    Vec3 {
        x: floor_div(across, canvas_width as i128) as i64,
        y: floor_div(up, canvas_height as i128) as i64,
        z: projection_plane_distance,
    }
}

fn root_of(numer: i128, a: i128) -> (t: i64)
    requires
        1 <= a <= 0x4000_0000_0000_0000,
        -0x8000_0000_0000_0000 <= numer <= 0x8000_0000_0000_0000,
        -ROOT_MAX <= root(numer as int, a as int) <= ROOT_MAX,
    ensures
        t == root(numer as int, a as int),
{
    proof {
        lemma_mul_bound(numer as int, ONE as int, 0x8000_0000_0000_0000, ONE as int);
    }
    floor_div(numer * (ONE as i128), 2 * a) as i64
}

/// The two parameters at which the ray from `origin` along `direction`
/// meets the sphere, or twice `INFINITY` where it misses it. The first
/// root is the one with the added square root, so it is never the smaller
/// one; which of the two is the nearer hit depends on the interval that
/// the caller looks at. A ray needs a direction: the zero vector is an
/// error.
pub fn intersect_ray_sphere(origin: &Vec3, direction: &Vec3, sphere: &Sphere) -> (roots: Result<
    (i64, i64),
    TraceError,
>)
    requires
        origin@.within(WORLD_MAX as int),
        direction@.within(RAY_MAX as int),
        sphere.wf(),
    ensures
        direction@.is_zero() ==> roots == Err::<(i64, i64), TraceError>(TraceError::DegenerateRay),
        !direction@.is_zero() ==> (roots matches Ok(pair) && (pair.0 as int, pair.1 as int)
            == ray_sphere_roots(origin@, direction@, sphere.center@, sphere.radius as int)),
        roots matches Ok(pair) ==> pair == (INFINITY, INFINITY) || -ROOT_MAX <= pair.1 <= pair.0
            <= ROOT_MAX,
{
    if direction.is_zero() {
        return Err(TraceError::DegenerateRay);
    }
    let co: Vec3 = origin.sub(&sphere.center);
    let ghost lim: int = RAY_MAX as int;
    proof {
        lemma_norm_sq_sign(direction@);
        lemma_dot_bound(direction@, direction@, lim, lim);
        lemma_dot_bound(co@, direction@, lim, lim);
        lemma_dot_bound(co@, co@, lim, lim);
        lemma_norm_sq_sign(co@);
        lemma_mul_bound(sphere.radius as int, sphere.radius as int, WORLD_MAX as int, WORLD_MAX as int);
    }
    let a: i128 = direction.dot_wide(direction);
    let b: i128 = 2 * co.dot_wide(direction);
    let c: i128 = co.dot_wide(&co) - wide_mul(sphere.radius, sphere.radius);
    proof {
        let bound: int = 3 * (lim * lim);
        assert(bound == 0x3000_0000_0000_0000) by (nonlinear_arith)
            requires
                bound == 3 * (lim * lim),
                lim == 0x4000_0000,
        ;
        lemma_mul_bound(b as int, b as int, 2 * bound, 2 * bound);
        lemma_mul_bound(a as int, c as int, bound, bound);
        assert((2 * bound) * (2 * bound) == 0x2400_0000_0000_0000_0000_0000_0000_0000)
            by (nonlinear_arith)
            requires
                bound == 0x3000_0000_0000_0000,
        ;
        assert(bound * bound == 0x0900_0000_0000_0000_0000_0000_0000_0000) by (nonlinear_arith)
            requires
                bound == 0x3000_0000_0000_0000,
        ;
        assert(b * b >= 0) by (nonlinear_arith);
        assert(4 * a * c == 4 * (a * c)) by (nonlinear_arith);
    }
    let disc: i128 = b * b - 4 * (a * c);
    if disc < 0 {
        Ok((INFINITY, INFINITY))
    } else {
        let s: i128 = isqrt(disc);
        proof {
            lemma_roots_are_finite(co@, direction@, sphere.radius as int, s as int, -b + s);
            lemma_roots_are_finite(co@, direction@, sphere.radius as int, s as int, -b - s);
            lemma_mul_bound(s as int, ONE as int, 0x1_0000_0000_0000_0000, ONE as int);
            lemma_div_le((-b - s) * ONE, (-b + s) * ONE, 2 * a);
        }
        Ok((root_of(-b + s, a), root_of(-b - s, a)))
    }
}

/// The sphere that the ray meets first at a parameter from `t_min` to
/// `t_max`, with that parameter; without such a sphere, `None` and
/// `INFINITY`. Of two spheres that the ray meets at the same parameter the
/// earlier one in `spheres` counts. A ray needs a direction: the zero vector
/// is an error.
pub fn closest_intersection<'a>(
    origin: &Vec3,
    direction: &Vec3,
    t_min: i64,
    t_max: i64,
    spheres: &'a [Sphere],
) -> (found: Result<(Option<&'a Sphere>, i64), TraceError>)
    requires
        origin@.within(WORLD_MAX as int),
        direction@.within(RAY_MAX as int),
        spheres_wf(spheres@),
    ensures
        direction@.is_zero() ==> found == Err::<(Option<&Sphere>, i64), TraceError>(
            TraceError::DegenerateRay,
        ),
        !direction@.is_zero() ==> (found matches Ok(pair) && match closest_hit(
            origin@,
            direction@,
            t_min as int,
            t_max as int,
            spheres@,
        ) {
            Some(hit) => 0 <= hit.index < spheres.len() && pair.0 == Some(&spheres[hit.index])
                && pair.1 == hit.t,
            None => pair.0 is None && pair.1 == INFINITY,
        }),
{
    if direction.is_zero() {
        return Err(TraceError::DegenerateRay);
    }
    let mut closest_t: i64 = INFINITY;
    let mut closest_sphere: Option<&'a Sphere> = None;
    let ghost mut hit: Option<Hit> = None;
    let mut i: usize = 0;
    assert(spheres@.take(0) =~= Seq::<Sphere>::empty());
    while i < spheres.len()
        invariant
            0 <= i <= spheres.len(),
            origin@.within(WORLD_MAX as int),
            direction@.within(RAY_MAX as int),
            !direction@.is_zero(),
            spheres_wf(spheres@),
            hit == closest_hit(origin@, direction@, t_min as int, t_max as int, spheres@.take(i as int)),
            closest_t == best_t(hit),
            match hit {
                Some(h) => 0 <= h.index < i && closest_sphere == Some(&spheres[h.index]),
                None => closest_sphere is None,
            },
        decreases spheres.len() - i,
    {
        let sphere: &'a Sphere = &spheres[i];
        let (t1, t2): (i64, i64) = match intersect_ray_sphere(origin, direction, sphere) {
            Ok(pair) => pair,
            Err(_) => (INFINITY, INFINITY),
        };
        proof {
            assert(spheres@.take(i + 1).drop_last() =~= spheres@.take(i as int));
            assert(spheres@.take(i + 1)[i as int] == spheres@[i as int]);
            hit = consider(consider(hit, i as int, t1 as int, t_min as int, t_max as int), i as int, t2 as int, t_min as int, t_max as int);
        }
        if t1 >= t_min && t1 <= t_max && t1 < closest_t {
            closest_t = t1;
            closest_sphere = Some(sphere);
        }
        if t2 >= t_min && t2 <= t_max && t2 < closest_t {
            closest_t = t2;
            closest_sphere = Some(sphere);
        }
        i = i + 1;
    }
    assert(spheres@.take(spheres.len() as int) =~= spheres@);
    Ok((closest_sphere, closest_t))
}

} // verus!
