//! The recursive tracer: closest hit, local illumination, and the blend
//! with what a mirrored ray sees.

use vstd::prelude::*;
use crate::color::{lemma_plus_black, lemma_scale_unit, Color};
use crate::error::TraceError;
use crate::fixed::{
    floor_div, lemma_div_le, wide_mul, INFINITY, ONE, RAY_MAX, SHADOW_EPSILON, WORLD_MAX,
};
use crate::geometry::{closest_hit, closest_intersection, Hit};
use crate::geometry_proofs::{counts, is_root, lemma_closest_hit, lemma_hit_point_near_sphere};
use crate::scene::{lights_wf, spheres_wf, Light, Sphere};
use crate::shading::{compute_lighting, lighting, reflect, reflect_ray};
use crate::vector::{lemma_length_bounds, Vec3, V3};

verus! {

/// How much of the lighting a ray is traced with.
#[derive(Clone, Copy, Debug, PartialEq, Eq, Structural)]
pub enum Shading {
    /// The colour of the closest sphere as it is.
    Flat,
    /// Ambient and diffuse light. Nothing casts a shadow or mirrors.
    Diffuse,
    /// Ambient, diffuse and specular light. Nothing casts a shadow or
    /// mirrors.
    Specular,
    /// Ambient, diffuse and specular light behind the shadow test, and
    /// mirror images as far as the depth reaches.
    Full,
}

/// The point of the ray at the parameter `t`.
pub open spec fn point_at(origin: V3, direction: V3, t: int) -> V3 {
    origin.plus(direction.times(t))
}

/// The hit point of the ray on the sphere named by `hit`.
pub open spec fn hit_point_of(origin: V3, direction: V3, hit: Hit) -> V3 {
    point_at(origin, direction, hit.t)
}

/// The normal of length one of the sphere named by `hit`, at the hit point.
pub open spec fn normal_at(origin: V3, direction: V3, hit: Hit, spheres: Seq<Sphere>) -> V3 {
    hit_point_of(origin, direction, hit).minus(spheres[hit.index].center@).normalized()
}

/// The direction of the ray that leaves the hit point as the mirror image
/// of the incoming one.
pub open spec fn mirrored_direction(origin: V3, direction: V3, hit: Hit, spheres: Seq<Sphere>) -> V3 {
    reflect(normal_at(origin, direction, hit, spheres), direction.neg())
}

/// The colour of the sphere named by `hit` under the lights at the hit
/// point, seen against the ray, without any mirror image.
pub open spec fn local_color(
    origin: V3,
    direction: V3,
    hit: Hit,
    spheres: Seq<Sphere>,
    lights: Seq<Light>,
) -> Result<Color, TraceError> {
    let sphere = spheres[hit.index];
    let point = hit_point_of(origin, direction, hit);
    if point.minus(sphere.center@).is_zero() {
        Err(TraceError::DegenerateNormal)
    } else {
        match lighting(
            point,
            normal_at(origin, direction, hit, spheres),
            direction.neg(),
            sphere.material.specular,
            lights,
            spheres,
        ) {
            Err(e) => Err(e),
            Ok(intensity) => Ok(sphere.material.color.scaled(intensity)),
        }
    }
}

/// The colour of the sphere named by `hit` under the lights at the hit
/// point where nothing casts a shadow, with or without its highlights.
pub open spec fn unshadowed_color(
    origin: V3,
    direction: V3,
    hit: Hit,
    spheres: Seq<Sphere>,
    lights: Seq<Light>,
    highlights: bool,
) -> Result<Color, TraceError> {
    let sphere = spheres[hit.index];
    let point = hit_point_of(origin, direction, hit);
    let specular = if highlights {
        sphere.material.specular
    } else {
        None
    };
    if point.minus(sphere.center@).is_zero() {
        Err(TraceError::DegenerateNormal)
    } else {
        match lighting(
            point,
            normal_at(origin, direction, hit, spheres),
            direction.neg(),
            specular,
            lights,
            Seq::<Sphere>::empty(),
        ) {
            Err(e) => Err(e),
            Ok(intensity) => Ok(sphere.material.color.scaled(intensity)),
        }
    }
}

/// The colour of a surface blended with the colour that its mirror image
/// shows: the first weighted by one less the reflectivity, the second by
/// the reflectivity.
pub open spec fn blend(local: Color, reflected: Color, reflectivity: int) -> Color {
    local.scaled(ONE - reflectivity).plus(reflected.scaled(reflectivity))
}

/// The colour that the ray from `origin` along `direction` sees between
/// the parameters `t_min` and `t_max`, with at most `depth` mirror bounces.
///
/// Without a hit it is the background. At a hit it is the colour of the
/// sphere under the light at the hit point. Where the sphere mirrors and
/// `depth` is not used up, that colour is blended with what the mirrored
/// ray sees with one bounce less.
pub open spec fn traced(
    origin: V3,
    direction: V3,
    t_min: int,
    t_max: int,
    spheres: Seq<Sphere>,
    lights: Seq<Light>,
    depth: nat,
    background: Color,
) -> Result<Color, TraceError>
    decreases depth,
{
    if direction.is_zero() {
        Err(TraceError::DegenerateRay)
    } else {
        match closest_hit(origin, direction, t_min, t_max, spheres) {
            None => Ok(background),
            Some(hit) => match local_color(origin, direction, hit, spheres, lights) {
                Err(e) => Err(e),
                Ok(local) => {
                    let reflectivity = spheres[hit.index].material.reflectivity();
                    let mirrored = mirrored_direction(origin, direction, hit, spheres);
                    if depth == 0 || reflectivity <= 0 {
                        Ok(local)
                    } else if !mirrored.within(RAY_MAX as int) {
                        Err(TraceError::OutOfRange)
                    } else {
                        match traced(
                            hit_point_of(origin, direction, hit),
                            mirrored,
                            SHADOW_EPSILON as int,
                            INFINITY as int,
                            spheres,
                            lights,
                            (depth - 1) as nat,
                            background,
                        ) {
                            Err(e) => Err(e),
                            Ok(reflected) => Ok(blend(local, reflected, reflectivity)),
                        }
                    }
                },
            },
        }
    }
}

/// The colour that the ray sees under the given shading: with the full
/// shading what `traced` says, and with a lighter one the background where
/// the ray meets no sphere, else the colour of the closest sphere, as it is
/// or under the unshadowed lights. The depth counts for the full shading
/// alone.
pub open spec fn traced_as(
    shading: Shading,
    origin: V3,
    direction: V3,
    t_min: int,
    t_max: int,
    spheres: Seq<Sphere>,
    lights: Seq<Light>,
    depth: nat,
    background: Color,
) -> Result<Color, TraceError> {
    if shading is Full {
        traced(origin, direction, t_min, t_max, spheres, lights, depth, background)
    } else if direction.is_zero() {
        Err(TraceError::DegenerateRay)
    } else {
        match closest_hit(origin, direction, t_min, t_max, spheres) {
            None => Ok(background),
            Some(hit) => match shading {
                Shading::Flat => Ok(spheres[hit.index].material.color),
                Shading::Diffuse => unshadowed_color(origin, direction, hit, spheres, lights, false),
                _ => unshadowed_color(origin, direction, hit, spheres, lights, true),
            },
        }
    }
}

/// A surface that mirrors nothing shows its own colour, and a perfect
/// mirror shows what the mirrored ray sees and nothing of its own colour.
pub proof fn lemma_blend_identity(local: Color, reflected: Color)
    ensures
        blend(local, reflected, 0) == local,
        blend(local, reflected, ONE as int) == reflected,
{
    lemma_scale_unit(local);
    lemma_scale_unit(reflected);
    lemma_plus_black(local);
    lemma_plus_black(reflected);
}

/// Where the closest sphere mirrors nothing, the ray sees the local colour
/// of that sphere, whatever the depth.
pub proof fn lemma_matte_sphere_shows_local_color(
    origin: V3,
    direction: V3,
    t_min: int,
    t_max: int,
    spheres: Seq<Sphere>,
    lights: Seq<Light>,
    depth: nat,
    background: Color,
)
    requires
        !direction.is_zero(),
        closest_hit(origin, direction, t_min, t_max, spheres) is Some,
        spheres[closest_hit(origin, direction, t_min, t_max, spheres)->0.index].material.reflectivity()
            == 0,
    ensures
        traced(origin, direction, t_min, t_max, spheres, lights, depth, background) == local_color(
            origin,
            direction,
            closest_hit(origin, direction, t_min, t_max, spheres)->0,
            spheres,
            lights,
        ),
{
}

/// Where the closest sphere is a perfect mirror and a bounce is left, the
/// ray sees what the mirrored ray sees with one bounce less, and nothing of
/// the local colour. (The local colour must exist, and the mirrored
/// direction must be one that a ray can have.)
pub proof fn lemma_perfect_mirror_shows_reflection(
    origin: V3,
    direction: V3,
    t_min: int,
    t_max: int,
    spheres: Seq<Sphere>,
    lights: Seq<Light>,
    depth: nat,
    background: Color,
)
    requires
        !direction.is_zero(),
        depth > 0,
        closest_hit(origin, direction, t_min, t_max, spheres) is Some,
        spheres[closest_hit(origin, direction, t_min, t_max, spheres)->0.index].material.reflectivity()
            == ONE,
        local_color(
            origin,
            direction,
            closest_hit(origin, direction, t_min, t_max, spheres)->0,
            spheres,
            lights,
        ) is Ok,
        mirrored_direction(
            origin,
            direction,
            closest_hit(origin, direction, t_min, t_max, spheres)->0,
            spheres,
        ).within(RAY_MAX as int),
    ensures
        ({
            let hit = closest_hit(origin, direction, t_min, t_max, spheres)->0;
            traced(origin, direction, t_min, t_max, spheres, lights, depth, background) == traced(
                hit_point_of(origin, direction, hit),
                mirrored_direction(origin, direction, hit, spheres),
                SHADOW_EPSILON as int,
                INFINITY as int,
                spheres,
                lights,
                (depth - 1) as nat,
                background,
            )
        }),
{
    let hit = closest_hit(origin, direction, t_min, t_max, spheres)->0;
    let local = local_color(origin, direction, hit, spheres, lights)->Ok_0;
    let inner = traced(
        hit_point_of(origin, direction, hit),
        mirrored_direction(origin, direction, hit, spheres),
        SHADOW_EPSILON as int,
        INFINITY as int,
        spheres,
        lights,
        (depth - 1) as nat,
        background,
    );
    if inner is Ok {
        lemma_blend_identity(local, inner->Ok_0);
    }
}

/// The closest hit of a ray of the world on well-formed spheres lies in
/// the world.
pub proof fn lemma_hit_point_in_world(
    origin: V3,
    direction: V3,
    t_min: int,
    t_max: int,
    spheres: Seq<Sphere>,
)
    requires
        origin.within(WORLD_MAX as int),
        direction.within(RAY_MAX as int),
        !direction.is_zero(),
        spheres_wf(spheres),
        closest_hit(origin, direction, t_min, t_max, spheres) is Some,
    ensures
        hit_point_of(
            origin,
            direction,
            closest_hit(origin, direction, t_min, t_max, spheres)->0,
        ).within(WORLD_MAX as int),
{
    let hit = closest_hit(origin, direction, t_min, t_max, spheres)->0;
    lemma_closest_hit(origin, direction, t_min, t_max, spheres);
    let sphere = spheres[hit.index];
    assert(sphere.wf());
    assert(is_root(origin, direction, spheres, hit.index, hit.t));
    assert(counts(hit.t, t_min, t_max));
    lemma_hit_point_near_sphere(origin, direction, sphere.center@, sphere.radius as int, hit.t);
    lemma_length_bounds(direction, RAY_MAX as int);
    lemma_div_le(direction.length(), 2 * RAY_MAX, ONE as int);
}

fn advance(origin: i64, direction: i64, t: i64) -> (c: i64)
    requires
        -WORLD_MAX <= origin + direction * t / (ONE as int) <= WORLD_MAX,
    ensures
        c == origin + direction * t / (ONE as int),
{
    let step: i128 = floor_div(wide_mul(direction, t), ONE as i128);
    (origin as i128 + step) as i64
}

/// The point of the ray at the parameter `t`, which lies in the world.
pub fn ray_point(origin: &Vec3, direction: &Vec3, t: i64) -> (point: Vec3)
    requires
        point_at(origin@, direction@, t as int).within(WORLD_MAX as int),
    ensures
        point@ == point_at(origin@, direction@, t as int),
{
    Vec3 {
        x: advance(origin.x, direction.x, t),
        y: advance(origin.y, direction.y, t),
        z: advance(origin.z, direction.z, t),
    }
}

/// The colour that the ray from `origin` along `direction` sees between
/// the parameters `t_min` and `t_max`: the background where it meets no
/// sphere, else the colour of the closest sphere under the lights, blended
/// with its mirror image as far as `recursion_depth` bounces reach.
///
/// A ray without direction, a normal without direction and a mirrored
/// direction beyond the limit of a ray's are errors.
pub fn trace(
    origin: &Vec3,
    direction: &Vec3,
    t_min: i64,
    t_max: i64,
    spheres: &[Sphere],
    lights: &[Light],
    recursion_depth: u32,
    background: Color,
) -> (color: Result<Color, TraceError>)
    requires
        origin@.within(WORLD_MAX as int),
        direction@.within(RAY_MAX as int),
        spheres_wf(spheres@),
        lights_wf(lights@),
    ensures
        color == traced(
            origin@,
            direction@,
            t_min as int,
            t_max as int,
            spheres@,
            lights@,
            recursion_depth as nat,
            background,
        ),
    decreases recursion_depth,
{
    let found = closest_intersection(origin, direction, t_min, t_max, spheres);
    let (closest_sphere, closest_t) = match found {
        Err(e) => {
            return Err(e);
        },
        Ok(pair) => pair,
    };
    let sphere: &Sphere = match closest_sphere {
        None => {
            return Ok(background);
        },
        Some(sphere) => sphere,
    };
    proof {
        lemma_hit_point_in_world(origin@, direction@, t_min as int, t_max as int, spheres@);
    }
    let point: Vec3 = ray_point(origin, direction, closest_t);
    let outward: Vec3 = point.sub(&sphere.center);
    if outward.is_zero() {
        return Err(TraceError::DegenerateNormal);
    }
    let normal: Vec3 = outward.normalize();
    let view: Vec3 = Vec3 { x: -direction.x, y: -direction.y, z: -direction.z };
    let intensity: i64 = match compute_lighting(
        &point,
        &normal,
        &view,
        sphere.material.specular,
        lights,
        spheres,
    ) {
        Err(e) => {
            return Err(e);
        },
        Ok(intensity) => intensity,
    };
    let local_color: Color = sphere.material.color.scale(intensity);
    let reflectivity: i64 = match sphere.material.reflective {
        Some(r) => r,
        None => 0,
    };
    if recursion_depth == 0 || reflectivity <= 0 {
        return Ok(local_color);
    }
    let mirrored: Vec3 = reflect_ray(&normal, &view);
    if !mirrored.is_within(RAY_MAX) {
        return Err(TraceError::OutOfRange);
    }
    match trace(
        &point,
        &mirrored,
        SHADOW_EPSILON,
        INFINITY,
        spheres,
        lights,
        recursion_depth - 1,
        background,
    ) {
        Err(e) => Err(e),
        Ok(reflected) => Ok(local_color.scale(ONE - reflectivity).add(&reflected.scale(reflectivity))),
    }
}

/// The colour that the ray from `origin` along `direction` sees between
/// the parameters `t_min` and `t_max` under the given shading. The full
/// shading is that of `trace`; the lighter ones know neither shadows nor
/// mirror images, and the flat one no light at all.
pub fn trace_as(
    shading: Shading,
    origin: &Vec3,
    direction: &Vec3,
    t_min: i64,
    t_max: i64,
    spheres: &[Sphere],
    lights: &[Light],
    recursion_depth: u32,
    background: Color,
) -> (color: Result<Color, TraceError>)
    requires
        origin@.within(WORLD_MAX as int),
        direction@.within(RAY_MAX as int),
        spheres_wf(spheres@),
        lights_wf(lights@),
    ensures
        color == traced_as(
            shading,
            origin@,
            direction@,
            t_min as int,
            t_max as int,
            spheres@,
            lights@,
            recursion_depth as nat,
            background,
        ),
{
    let highlights: bool = match shading {
        Shading::Full => {
            return trace(
                origin,
                direction,
                t_min,
                t_max,
                spheres,
                lights,
                recursion_depth,
                background,
            );
        },
        Shading::Flat | Shading::Diffuse => false,
        Shading::Specular => true,
    };
    let found = closest_intersection(origin, direction, t_min, t_max, spheres);
    let (closest_sphere, closest_t) = match found {
        Err(e) => {
            return Err(e);
        },
        Ok(pair) => pair,
    };
    let sphere: &Sphere = match closest_sphere {
        None => {
            return Ok(background);
        },
        Some(sphere) => sphere,
    };
    if let Shading::Flat = shading {
        return Ok(sphere.material.color);
    }
    proof {
        lemma_hit_point_in_world(origin@, direction@, t_min as int, t_max as int, spheres@);
    }
    let point: Vec3 = ray_point(origin, direction, closest_t);
    let outward: Vec3 = point.sub(&sphere.center);
    if outward.is_zero() {
        return Err(TraceError::DegenerateNormal);
    }
    let normal: Vec3 = outward.normalize();
    let view: Vec3 = Vec3 { x: -direction.x, y: -direction.y, z: -direction.z };
    let specular: Option<u32> = if highlights {
        sphere.material.specular
    } else {
        None
    };
    let nothing: Vec<Sphere> = Vec::new();
    match compute_lighting(&point, &normal, &view, specular, lights, nothing.as_slice()) {
        Err(e) => Err(e),
        Ok(intensity) => Ok(sphere.material.color.scale(intensity)),
    }
}

} // verus!
