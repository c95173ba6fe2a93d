//! When the tracing of a ray succeeds.

use vstd::prelude::*;
use crate::algebra::{
    lemma_distribute, lemma_lagrange, lemma_norm_of_combination, lemma_regroup,
};
use crate::color::Color;
use crate::error::TraceError;
use crate::fixed::{
    lemma_div_le, lemma_floor_div, lemma_sqrt_floor, INFINITY, ONE, RAY_MAX, SHADOW_EPSILON,
    WORLD_MAX,
};
use crate::geometry::{closest_hit, discriminant, ray_sphere_roots};
use crate::geometry_proofs::{
    counts, is_root, lemma_closest_hit, lemma_hit_point_near_sphere, lemma_root_lies_on_sphere,
};
use crate::scene::{spheres_wf, Light, LightType, Sphere};
use crate::shading::{
    lemma_lighting_error, lemma_reflection_bound, light_contribution, lighting, reflect,
};
use crate::tracer::{
    hit_point_of, lemma_hit_point_in_world, mirrored_direction, normal_at, traced, traced_as,
    Shading,
};
use crate::vector::{
    largest, lemma_largest, lemma_length_bounds, lemma_norm_sq_sign, lemma_normalized_within, V3,
};

verus! {

/// One component of a normalized vector, multiplied by the length.
proof fn lemma_normalized_component(c: int, len: int, n: int)
    requires
        len >= 1,
        -len <= c <= len,
        n == c * ONE / len,
    ensures
        (len * n) * (len * n) >= (ONE * ONE) * (c * c) - 2 * (ONE * (len * len)),
{
    let one = ONE as int;
    lemma_floor_div(c * one, len);
    let d = c * one - len * n;
    assert(0 <= d < len);
    assert((len * n) * (len * n) == (one * one) * (c * c) - 2 * ((c * one) * d) + d * d)
        by (nonlinear_arith)
        requires
            len * n == c * one - d,
    ;
    assert((c * one) * d <= one * (len * len)) by (nonlinear_arith)
        requires
            -len <= c <= len,
            0 <= d < len,
            one == 32768,
    ;
    assert(d * d >= 0) by (nonlinear_arith);
}

/// The normalized vector is of length one up to rounding: its squared
/// length is at least `ONE (ONE - 6)`.
pub proof fn lemma_normalized_length(v: V3)
    requires
        !v.is_zero(),
    ensures
        v.normalized().norm_sq() >= ONE * (ONE - 6),
{
    let one = ONE as int;
    let len = v.length();
    let n = v.normalized();
    lemma_largest(v);
    lemma_length_bounds(v, largest(v));
    lemma_norm_sq_sign(v);
    lemma_sqrt_floor(v.norm_sq());
    lemma_normalized_component(v.x, len, n.x);
    lemma_normalized_component(v.y, len, n.y);
    lemma_normalized_component(v.z, len, n.z);
    let s = n.norm_sq();
    lemma_regroup(len, n.x, len, n.x);
    lemma_regroup(len, n.y, len, n.y);
    lemma_regroup(len, n.z, len, n.z);
    lemma_distribute(len * len, n.x * n.x, n.y * n.y, n.z * n.z);
    lemma_distribute(one * one, v.x * v.x, v.y * v.y, v.z * v.z);
    assert((len * len) * s >= (one * one) * (len * len) - 6 * (one * (len * len)))
        by (nonlinear_arith)
        requires
            (len * len) * s >= (one * one) * v.norm_sq() - 6 * (one * (len * len)),
            v.norm_sq() >= len * len,
            one == 32768,
    ;
    assert(s >= one * (one - 6)) by (nonlinear_arith)
        requires
            (len * len) * s >= (one * one) * (len * len) - 6 * (one * (len * len)),
            len >= 1,
            one == 32768,
    {
        assert((len * len) * s >= (len * len) * (one * (one - 6)));
        if s < one * (one - 6) {
            assert((len * len) * s < (len * len) * (one * (one - 6)));
        }
    }
}

/// One component of the mirror image is the rounded quotient of the
/// same component of `k normal - ONE^2 ray` by `ONE^2`.
proof fn lemma_reflection_component(n: int, k: int, v: int)
    ensures
        n * k / (ONE * ONE) - v == (n * k + v * (-(ONE * ONE))) / (ONE * ONE),
{
    let e: int = 0x4000_0000;
    assert((n * k + v * (-e)) / e == (n * k) / e - v) by (nonlinear_arith)
        requires
            e == 0x4000_0000,
    ;
    assert(ONE * ONE == e) by (nonlinear_arith)
        requires
            e == 0x4000_0000,
    ;
}

/// A number of magnitude at least `ONE^2 half`, divided by `ONE^2` and
/// rounded down, has magnitude at least `half`.
proof fn lemma_long_quotient(w: int, half: int)
    requires
        half >= 0,
        w >= (ONE * ONE) * half || -w >= (ONE * ONE) * half,
    ensures
        w / (ONE * ONE) >= half || w / (ONE * ONE) <= -half,
{
    let e: int = ONE * ONE;
    assert(e == 0x4000_0000) by (nonlinear_arith)
        requires
            e == ONE * ONE,
    ;
    crate::fixed::lemma_div_exact(half, e);
    crate::fixed::lemma_div_exact(-half, e);
    assert((-half) * e == -(e * half) && half * e == e * half) by (nonlinear_arith);
    if w >= e * half {
        lemma_div_le(e * half, w, e);
    } else {
        lemma_div_le(w, -(e * half), e);
    }
}

/// The mirror image of a ray is not much shorter than the ray: about a
/// normal of length one up to rounding, its largest component is at least
/// half the largest component of the ray.
pub proof fn lemma_reflection_is_long(normal: V3, ray: V3)
    requires
        normal.norm_sq() >= ONE * (ONE - 6),
    ensures
        largest(reflect(normal, ray)) >= largest(ray) / 2,
{
    let one = ONE as int;
    let e = one * one;
    let k = 2 * normal.dot(ray);
    let nn = normal.norm_sq();
    let vv = ray.norm_sq();
    let w = normal.multiple(k).plus(ray.multiple(-e));
    let ww = w.norm_sq();
    let l = largest(ray);
    let half = l / 2;
    assert(e == 0x4000_0000) by (nonlinear_arith)
        requires
            e == one * one,
            one == 32768,
    ;
    lemma_norm_sq_sign(normal.cross(ray));
    lemma_lagrange(normal, ray);
    lemma_largest(ray);
    lemma_largest(w);
    lemma_norm_of_combination(normal, ray, k, -e);
    // The squared length of `w`.
    assert(ww == (e * e) * vv + (k * k) * (nn - e)) by (nonlinear_arith)
        requires
            ww == (k * k) * nn + (2 * (k * (-e))) * normal.dot(ray) + ((-e) * (-e)) * vv,
            k == 2 * normal.dot(ray),
    ;
    assert(k * k <= 4 * (nn * vv)) by (nonlinear_arith)
        requires
            k == 2 * normal.dot(ray),
            nn * vv == normal.dot(ray) * normal.dot(ray) + normal.cross(ray).norm_sq(),
            normal.cross(ray).norm_sq() >= 0,
    ;
    lemma_norm_sq_sign(ray);
    assert(k * k >= 0) by (nonlinear_arith);
    assert(4 * ww >= 3 * ((e * e) * vv)) by (nonlinear_arith)
        requires
            ww == (e * e) * vv + (k * k) * (nn - e),
            0 <= k * k <= 4 * (nn * vv),
            nn >= e - 6 * 32768,
            e == 0x4000_0000,
            vv >= 0,
    {
        if nn < e {
            assert((k * k) * (e - nn) <= (4 * (nn * vv)) * (e - nn));
            assert((4 * (nn * vv)) * (e - nn) <= (4 * (e * vv)) * (6 * 32768));
            assert(4 * ((4 * (e * vv)) * (6 * 32768)) <= (e * e) * vv);
        } else {
            assert((k * k) * (nn - e) >= 0);
        }
    }
    // Its largest component.
    let big = largest(w);
    assert(big >= e * half) by (nonlinear_arith)
        requires
            4 * ww >= 3 * ((e * e) * vv),
            vv >= l * l,
            ww <= 3 * (big * big),
            big >= 0,
            l >= 0,
            half == l / 2,
            e == 0x4000_0000,
    {
        assert(l >= 2 * half);
        assert(4 * (big * big) >= (e * e) * (l * l));
        assert((e * e) * (l * l) >= (e * e) * ((2 * half) * (2 * half)));
        assert((e * e) * ((2 * half) * (2 * half)) == 4 * ((e * half) * (e * half)));
        if big < e * half {
            assert(big * big < (e * half) * (e * half));
        }
    }
    let r = reflect(normal, ray);
    lemma_reflection_component(normal.x, k, ray.x);
    lemma_reflection_component(normal.y, k, ray.y);
    lemma_reflection_component(normal.z, k, ray.z);
    assert(r.x == w.x / e && r.y == w.y / e && r.z == w.z / e);
    if big == w.x || big == -w.x {
        lemma_long_quotient(w.x, half);
    } else if big == w.y || big == -w.y {
        lemma_long_quotient(w.y, half);
    } else {
        lemma_long_quotient(w.z, half);
    }
    lemma_largest(r);
}

/// The largest component that a direction can have after `depth` mirror
/// bounces, when it starts with none beyond `m`.
pub open spec fn mirrored_reach(m: int, depth: nat) -> int
    decreases depth,
{
    if depth == 0 {
        m
    } else {
        mirrored_reach(7 * m, (depth - 1) as nat)
    }
}

/// The reach grows with the number of bounces.
pub proof fn lemma_mirrored_reach(m: int, depth: nat)
    requires
        m >= 0,
    ensures
        mirrored_reach(m, depth) >= m,
    decreases depth,
{
    if depth > 0 {
        lemma_mirrored_reach(7 * m, (depth - 1) as nat);
    }
}

/// A ray whose direction is short enough for its depth never has a
/// mirror image beyond the limit of a ray's direction: with seven times
/// the largest component for each bounce within `RAY_MAX`, the tracing
/// does not end in `OutOfRange`.
pub proof fn lemma_mirrored_rays_stay_in_range(
    origin: V3,
    direction: V3,
    t_min: int,
    t_max: int,
    spheres: Seq<Sphere>,
    lights: Seq<Light>,
    depth: nat,
    background: Color,
    m: int,
)
    requires
        m >= 0,
        direction.within(m),
        mirrored_reach(m, depth) <= RAY_MAX,
    ensures
        traced(origin, direction, t_min, t_max, spheres, lights, depth, background) != Err::<
            Color,
            TraceError,
        >(TraceError::OutOfRange),
    decreases depth,
{
    if !direction.is_zero() {
        match closest_hit(origin, direction, t_min, t_max, spheres) {
            None => {},
            Some(hit) => {
                let sphere = spheres[hit.index];
                let point = hit_point_of(origin, direction, hit);
                let outward = point.minus(sphere.center@);
                let normal = normal_at(origin, direction, hit, spheres);
                lemma_lighting_error(
                    point,
                    normal,
                    direction.neg(),
                    sphere.material.specular,
                    lights,
                    spheres,
                );
                if depth > 0 && !outward.is_zero() {
                    lemma_normalized_within(outward);
                    lemma_reflection_bound(normal, direction.neg(), m);
                    lemma_mirrored_reach(7 * m, (depth - 1) as nat);
                    lemma_mirrored_rays_stay_in_range(
                        point,
                        mirrored_direction(origin, direction, hit, spheres),
                        SHADOW_EPSILON as int,
                        INFINITY as int,
                        spheres,
                        lights,
                        (depth - 1) as nat,
                        background,
                        7 * m,
                    );
                }
            },
        }
    }
}

/// The smallest that the largest component of a direction can be after
/// `depth` mirror bounces, when it starts with `lo`.
pub open spec fn mirrored_floor(lo: int, depth: nat) -> int
    decreases depth,
{
    if depth == 0 {
        lo
    } else {
        mirrored_floor(lo / 2, (depth - 1) as nat)
    }
}

/// The floor sinks with the number of bounces.
pub proof fn lemma_mirrored_floor(lo: int, depth: nat)
    requires
        lo >= 0,
    ensures
        0 <= mirrored_floor(lo, depth) <= lo,
    decreases depth,
{
    if depth > 0 {
        lemma_mirrored_floor(lo / 2, (depth - 1) as nat);
    }
}

/// A root of a ray that is not too short for the sphere gives a hit point
/// apart from the centre, so that the sphere has a normal there.
pub proof fn lemma_hit_has_normal(origin: V3, direction: V3, center: V3, radius: int, t: int)
    requires
        largest(direction) >= 2,
        ONE * radius >= 2 * (direction.length() + 1) + 2 * ONE,
        discriminant(origin.minus(center), direction, radius) >= 0,
        t == ray_sphere_roots(origin, direction, center, radius).0 || t == ray_sphere_roots(
            origin,
            direction,
            center,
            radius,
        ).1,
    ensures
        !origin.plus(direction.times(t)).minus(center).is_zero(),
{
    let co = origin.minus(center);
    let one = ONE as int;
    let e = one * one;
    let a = direction.norm_sq();
    lemma_largest(direction);
    lemma_length_bounds(direction, largest(direction));
    lemma_root_lies_on_sphere(origin, direction, center, radius, t);
    lemma_sqrt_floor(a);
    let root = crate::fixed::sqrt_floor(discriminant(co, direction, radius));
    let len = direction.length() + 1;
    let q = co.multiple(one).plus(direction.multiple(t));
    let qq = q.norm_sq();
    let excess = qq - e * (radius * radius);
    assert(len <= a) by (nonlinear_arith)
        requires
            len >= 3,
            (len - 1) * (len - 1) <= a,
    ;
    assert(radius >= 3);
    assert(qq >= 3 * e) by (nonlinear_arith)
        requires
            excess == qq - e * (radius * radius),
            4 * a * excess >= -(2 * (one * root) * (2 * a + one)),
            0 <= root <= 2 * (radius * len),
            3 <= len <= a,
            one * radius >= 2 * len + 2 * one,
            radius >= 3,
            e == one * one,
            one == 32768,
    {
        let bound = one * (2 * (radius * len));
        assert(one * root <= bound);
        assert((one * root) * (2 * a + one) <= bound * (2 * a + one));
        assert(bound * (2 * a + one) <= a * (2 * (one * radius) * (2 * len + one)));
        assert(4 * (a * excess) >= -(4 * (a * ((one * radius) * (2 * len + one)))));
        assert(excess >= -((one * radius) * (2 * len + one)));
        assert(qq >= (one * radius) * (one * radius - 2 * len - one));
        assert((one * radius) * (one * radius - 2 * len - one) >= (one * radius) * one);
        assert((one * radius) * one >= 3 * (one * one));
    }
    let out = origin.plus(direction.times(t)).minus(center);
    if out.is_zero() {
        lemma_zero_coordinate(origin.x, center.x, direction.x, t);
        lemma_zero_coordinate(origin.y, center.y, direction.y, t);
        lemma_zero_coordinate(origin.z, center.z, direction.z, t);
        assert(q.x * q.x < e && q.y * q.y < e && q.z * q.z < e) by (nonlinear_arith)
            requires
                0 <= q.x < one,
                0 <= q.y < one,
                0 <= q.z < one,
                e == one * one,
        ;
    }
}

/// A coordinate of the hit point that equals the centre's comes from a
/// small number.
proof fn lemma_zero_coordinate(origin: int, center: int, direction: int, t: int)
    requires
        origin + direction * t / (ONE as int) - center == 0,
    ensures
        0 <= (origin - center) * ONE + direction * t < ONE,
{
    let one = ONE as int;
    lemma_floor_div(direction * t, one);
    assert((origin - center) * one == one * (origin - center)) by (nonlinear_arith);
}

/// The lighting succeeds where every light does.
pub proof fn lemma_lighting_succeeds(
    point: V3,
    normal: V3,
    view: V3,
    specular: Option<u32>,
    lights: Seq<Light>,
    spheres: Seq<Sphere>,
)
    requires
        forall|i: int|
            0 <= i < lights.len() ==> light_contribution(
                point,
                normal,
                view,
                specular,
                #[trigger] lights[i],
                spheres,
            ) is Ok,
    ensures
        lighting(point, normal, view, specular, lights, spheres) is Ok,
    decreases lights.len(),
{
    if lights.len() > 0 {
        let front = lights.drop_last();
        assert forall|i: int| 0 <= i < front.len() implies light_contribution(
            point,
            normal,
            view,
            specular,
            #[trigger] front[i],
            spheres,
        ) is Ok by {
            assert(front[i] == lights[i]);
        }
        lemma_lighting_succeeds(point, normal, view, specular, front, spheres);
        assert(lights.last() == lights[lights.len() - 1]);
    }
}

/// The light has a direction at every hit point of rays with no component
/// beyond `reach`: a directional light has one of its own, and a point
/// light stands apart from every sphere by more than rounding can carry a
/// hit point.
pub open spec fn light_is_clear(light: Light, spheres: Seq<Sphere>, reach: int) -> bool {
    match light.light_type {
        LightType::Ambient => true,
        LightType::Directional { direction } => !direction@.is_zero(),
        LightType::Point { position } => forall|j: int|
            0 <= j < spheres.len() ==> !position@.minus((#[trigger] spheres[j]).center@).within(
                spheres[j].radius + 2 * reach / (ONE as int) + 3,
            ),
    }
}

/// The scene suits rays with no component beyond `reach`: no sphere is as
/// small as the steps of such rays, and every light is clear of the
/// spheres.
pub open spec fn scene_is_clear(spheres: Seq<Sphere>, lights: Seq<Light>, reach: int) -> bool {
    &&& forall|j: int|
        0 <= j < spheres.len() ==> (#[trigger] spheres[j]).radius >= 4 * reach / (ONE as int) + 4
    &&& forall|i: int| 0 <= i < lights.len() ==> light_is_clear(#[trigger] lights[i], spheres, reach)
}

/// At the closest hit of a ray with no component beyond `m` and one of
/// at least 2, a scene that is clear for `reach`, which is at least `m`,
/// has a normal and a light: whatever the exponent of the surface and
/// whatever spheres cast shadows.
pub proof fn lemma_hit_is_lit(
    origin: V3,
    direction: V3,
    t_min: int,
    t_max: int,
    spheres: Seq<Sphere>,
    lights: Seq<Light>,
    occluders: Seq<Sphere>,
    specular: Option<u32>,
    m: int,
    reach: int,
)
    requires
        spheres_wf(spheres),
        direction.within(m),
        largest(direction) >= 2,
        m <= reach,
        scene_is_clear(spheres, lights, reach),
        closest_hit(origin, direction, t_min, t_max, spheres) is Some,
    ensures
        ({
            let hit = closest_hit(origin, direction, t_min, t_max, spheres)->0;
            &&& !hit_point_of(origin, direction, hit).minus(spheres[hit.index].center@).is_zero()
            &&& lighting(
                hit_point_of(origin, direction, hit),
                normal_at(origin, direction, hit, spheres),
                direction.neg(),
                specular,
                lights,
                occluders,
            ) is Ok
        }),
{
    let one = ONE as int;
    let hit = closest_hit(origin, direction, t_min, t_max, spheres)->0;
    lemma_largest(direction);
    lemma_closest_hit(origin, direction, t_min, t_max, spheres);
    let sphere = spheres[hit.index];
    let point = hit_point_of(origin, direction, hit);
    let normal = normal_at(origin, direction, hit, spheres);
    let view = direction.neg();
    assert(sphere.wf());
    assert(is_root(origin, direction, spheres, hit.index, hit.t));
    assert(counts(hit.t, t_min, t_max));
    lemma_length_bounds(direction, m);
    let len = direction.length();
    lemma_div_le(len, 2 * reach, one);
    lemma_floor_div(4 * reach, one);
    lemma_hit_has_normal(origin, direction, sphere.center@, sphere.radius as int, hit.t);
    lemma_hit_point_near_sphere(origin, direction, sphere.center@, sphere.radius as int, hit.t);
    assert forall|i: int| 0 <= i < lights.len() implies light_contribution(
        point,
        normal,
        view,
        specular,
        #[trigger] lights[i],
        occluders,
    ) is Ok by {
        assert(light_is_clear(lights[i], spheres, reach));
        match lights[i].light_type {
            LightType::Point { position } => {
                assert(!position@.minus(sphere.center@).within(
                    sphere.radius + 2 * reach / one + 3,
                ));
            },
            _ => {},
        }
    }
    lemma_lighting_succeeds(point, normal, view, specular, lights, occluders);
}

/// The tracing of a ray succeeds where the scene is clear for all the rays
/// that can arise.
///
/// The direction has no component beyond `m` and one of at least `lo`;
/// after `depth` bounces a direction has none beyond `mirrored_reach(m,
/// depth)`, which must be a direction that a ray can have, and one of at
/// least `mirrored_floor(lo, depth)`, which must be at least 2.
pub proof fn lemma_tracing_succeeds(
    origin: V3,
    direction: V3,
    t_min: int,
    t_max: int,
    spheres: Seq<Sphere>,
    lights: Seq<Light>,
    depth: nat,
    background: Color,
    m: int,
    lo: int,
)
    requires
        origin.within(WORLD_MAX as int),
        spheres_wf(spheres),
        direction.within(m),
        largest(direction) >= lo,
        mirrored_floor(lo, depth) >= 2,
        mirrored_reach(m, depth) <= RAY_MAX,
        scene_is_clear(spheres, lights, mirrored_reach(m, depth)),
    ensures
        traced(origin, direction, t_min, t_max, spheres, lights, depth, background) is Ok,
    decreases depth,
{
    let reach = mirrored_reach(m, depth);
    lemma_largest(direction);
    if lo < 0 {
        assert(mirrored_floor(lo, depth) <= 1) by {
            lemma_negative_floor(lo, depth);
        }
    }
    lemma_mirrored_floor(lo, depth);
    lemma_mirrored_reach(m, depth);
    assert(largest(direction) >= 2);
    assert(!direction.is_zero());
    match closest_hit(origin, direction, t_min, t_max, spheres) {
        None => {},
        Some(hit) => {
            let sphere = spheres[hit.index];
            let point = hit_point_of(origin, direction, hit);
            let outward = point.minus(sphere.center@);
            let normal = normal_at(origin, direction, hit, spheres);
            let view = direction.neg();
            lemma_hit_is_lit(
                origin,
                direction,
                t_min,
                t_max,
                spheres,
                lights,
                spheres,
                sphere.material.specular,
                m,
                reach,
            );
            if depth > 0 && sphere.material.reflectivity() > 0 {
                let mirrored = mirrored_direction(origin, direction, hit, spheres);
                lemma_normalized_within(outward);
                lemma_normalized_length(outward);
                lemma_reflection_bound(normal, view, m);
                lemma_reflection_is_long(normal, view);
                lemma_mirrored_reach(7 * m, (depth - 1) as nat);
                lemma_hit_point_in_world(origin, direction, t_min, t_max, spheres);
                assert(largest(view) == largest(direction));
                lemma_tracing_succeeds(
                    point,
                    mirrored,
                    SHADOW_EPSILON as int,
                    INFINITY as int,
                    spheres,
                    lights,
                    (depth - 1) as nat,
                    background,
                    7 * m,
                    lo / 2,
                );
            }
        },
    }
}

/// Under a lighter shading the tracing of a ray succeeds where the scene
/// is clear for the ray.
pub proof fn lemma_light_shading_succeeds(
    shading: Shading,
    origin: V3,
    direction: V3,
    t_min: int,
    t_max: int,
    spheres: Seq<Sphere>,
    lights: Seq<Light>,
    depth: nat,
    background: Color,
    m: int,
    reach: int,
)
    requires
        shading !is Full,
        spheres_wf(spheres),
        direction.within(m),
        largest(direction) >= 2,
        m <= reach,
        scene_is_clear(spheres, lights, reach),
    ensures
        traced_as(shading, origin, direction, t_min, t_max, spheres, lights, depth, background)
            is Ok,
{
    lemma_largest(direction);
    if closest_hit(origin, direction, t_min, t_max, spheres) is Some {
        let hit = closest_hit(origin, direction, t_min, t_max, spheres)->0;
        let empty = Seq::<Sphere>::empty();
        lemma_hit_is_lit(origin, direction, t_min, t_max, spheres, lights, empty, None, m, reach);
        lemma_hit_is_lit(
            origin,
            direction,
            t_min,
            t_max,
            spheres,
            lights,
            empty,
            spheres[hit.index].material.specular,
            m,
            reach,
        );
    }
}

/// The floor of a negative number is negative.
proof fn lemma_negative_floor(lo: int, depth: nat)
    requires
        lo < 0,
    ensures
        mirrored_floor(lo, depth) < 0,
    decreases depth,
{
    if depth > 0 {
        lemma_negative_floor(lo / 2, (depth - 1) as nat);
    }
}

} // verus!
