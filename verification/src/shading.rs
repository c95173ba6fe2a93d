//! Local illumination: ambient light, and for each point or directional
//! light a diffuse and a specular term behind a shadow test.

use vstd::prelude::*;
use crate::error::TraceError;
use crate::fixed::{
    fixed_pow, floor_div, lemma_div_exact, lemma_div_le, lemma_floor_div, lemma_mul_bound,
    lemma_mul_le, lemma_sqrt_floor, pow_fixed, wide_mul, INFINITY, INTENSITY_MAX, ONE, RAY_MAX,
    SHADOW_EPSILON, WORLD_MAX,
};
use crate::geometry::{closest_hit, closest_intersection};
use crate::scene::{lights_wf, spheres_wf, Light, LightType, Sphere};
use crate::algebra::lemma_lagrange;
use crate::vector::{
    largest, lemma_dot_bound, lemma_largest, lemma_length_bounds, lemma_norm_sq_sign, Vec3, V3,
};

verus! {

/// The mirror image of `ray` about `normal`, for a normal of length one:
/// twice the part of `ray` along the normal, less `ray`.
pub open spec fn reflect(normal: V3, ray: V3) -> V3 {
    let k = 2 * normal.dot(ray);
    V3 {
        x: normal.x * k / (ONE * ONE) - ray.x,
        y: normal.y * k / (ONE * ONE) - ray.y,
        z: normal.z * k / (ONE * ONE) - ray.z,
    }
}

/// The diffuse share of a light of the given intensity that shines from
/// `light_dir` on a surface with the given normal: the intensity times the
/// cosine of the angle between the two, and nothing where the light stands
/// behind the surface. Neither vector needs to be of length one.
pub open spec fn diffuse_intensity(normal: V3, light_dir: V3, intensity: int) -> int {
    let n_dot_l = normal.dot(light_dir);
    if n_dot_l <= 0 {
        0
    } else {
        intensity * n_dot_l / (normal.length() * light_dir.length())
    }
}

/// The cosine of the angle between the mirrored light and the direction to
/// the viewer, as a scalar. Rounding cannot carry it above `ONE`: it stops
/// there.
pub open spec fn highlight_cosine(reflection: V3, view: V3) -> int {
    let q = reflection.dot(view) * ONE / (reflection.length() * view.length());
    if q > ONE {
        ONE as int
    } else {
        q
    }
}

/// The specular share of a light: the intensity times the highlight's
/// cosine raised to the exponent of the surface. It is nothing for a matte
/// surface, for a light behind the surface, and for a viewer on the far
/// side of the mirrored light.
pub open spec fn specular_intensity(
    normal: V3,
    light_dir: V3,
    view: V3,
    specular: Option<u32>,
    intensity: int,
) -> int {
    match specular {
        None => 0,
        Some(exponent) => {
            let reflection = reflect(normal, light_dir);
            if normal.dot(light_dir) <= 0 || reflection.dot(view) <= 0 {
                0
            } else {
                intensity * pow_fixed(highlight_cosine(reflection, view), exponent as nat) / (
                ONE as int)
            }
        },
    }
}

/// What a light that shines from `light_dir` adds at `point`: nothing where
/// a sphere stands between the point and the light, that is where the ray
/// from the point along `light_dir` meets one at a parameter from
/// `SHADOW_EPSILON` to `t_max`; else the diffuse and the specular share.
pub open spec fn directed_light(
    point: V3,
    normal: V3,
    view: V3,
    specular: Option<u32>,
    light_dir: V3,
    t_max: int,
    intensity: int,
    spheres: Seq<Sphere>,
) -> Result<int, TraceError> {
    if light_dir.is_zero() {
        Err(TraceError::DegenerateRay)
    } else if closest_hit(point, light_dir, SHADOW_EPSILON as int, t_max, spheres) is Some {
        Ok(0)
    } else {
        Ok(
            diffuse_intensity(normal, light_dir, intensity) + specular_intensity(
                normal,
                light_dir,
                view,
                specular,
                intensity,
            ),
        )
    }
}

/// What one light adds at `point`. An ambient light adds its intensity. A
/// point light shines from its position, and only what lies before it can
/// shadow it; a directional light shines from its direction, and anything
/// along it can.
pub open spec fn light_contribution(
    point: V3,
    normal: V3,
    view: V3,
    specular: Option<u32>,
    light: Light,
    spheres: Seq<Sphere>,
) -> Result<int, TraceError> {
    match light.light_type {
        LightType::Ambient => Ok(light.intensity as int),
        LightType::Point { position } => directed_light(
            point,
            normal,
            view,
            specular,
            position@.minus(point),
            position@.minus(point).length(),
            light.intensity as int,
            spheres,
        ),
        LightType::Directional { direction } => directed_light(
            point,
            normal,
            view,
            specular,
            direction@,
            INFINITY as int,
            light.intensity as int,
            spheres,
        ),
    }
}

/// The light at `point`: the sum of what each light adds, or the error of
/// the first light that has one.
pub open spec fn lighting(
    point: V3,
    normal: V3,
    view: V3,
    specular: Option<u32>,
    lights: Seq<Light>,
    spheres: Seq<Sphere>,
) -> Result<int, TraceError>
    decreases lights.len(),
{
    if lights.len() == 0 {
        Ok(0)
    } else {
        match lighting(point, normal, view, specular, lights.drop_last(), spheres) {
            Err(e) => Err(e),
            Ok(sum) => match light_contribution(point, normal, view, specular, lights.last(), spheres) {
                Err(e) => Err(e),
                Ok(share) => Ok(sum + share),
            },
        }
    }
}

/// The dot product of two vectors does not exceed three times the product
/// of their rounded lengths in magnitude.
pub proof fn lemma_dot_le_lengths(u: V3, v: V3, mu: int, mv: int)
    requires
        u.within(mu),
        v.within(mv),
    ensures
        -3 * (u.length() * v.length()) <= u.dot(v) <= 3 * (u.length() * v.length()),
        u.dot(v) != 0 ==> u.length() >= 1 && v.length() >= 1 && u.length() * v.length() >= 1,
{
    lemma_length_bounds(u, mu);
    lemma_length_bounds(v, mv);
    let lu = u.length();
    let lv = v.length();
    lemma_mul_bound(u.x, v.x, lu, lv);
    lemma_mul_bound(u.y, v.y, lu, lv);
    lemma_mul_bound(u.z, v.z, lu, lv);
    assert(-(lu * lv) <= u.x * v.x <= lu * lv);
    assert(-(lu * lv) <= u.y * v.y <= lu * lv);
    assert(-(lu * lv) <= u.z * v.z <= lu * lv);
    assert(-3 * (lu * lv) <= u.dot(v) <= 3 * (lu * lv));
    if u.dot(v) != 0 {
        assert(!u.is_zero()) by (nonlinear_arith)
            requires
                u.x * v.x + u.y * v.y + u.z * v.z != 0,
        ;
        assert(!v.is_zero()) by (nonlinear_arith)
            requires
                u.x * v.x + u.y * v.y + u.z * v.z != 0,
        ;
        lemma_mul_le(1, 1, u.length(), v.length());
    }
}

/// The diffuse share is the intensity times a cosine: it exceeds the
/// intensity by no more than the rounding of the two lengths allows.
pub proof fn lemma_diffuse_is_a_cosine(normal: V3, light_dir: V3, intensity: int)
    requires
        intensity >= 0,
    ensures
        diffuse_intensity(normal, light_dir, intensity) * (normal.length() * light_dir.length())
            <= intensity * ((normal.length() + 1) * (light_dir.length() + 1)),
{
    let n_dot_l = normal.dot(light_dir);
    let len_n = normal.length();
    let len_l = light_dir.length();
    let nn = normal.norm_sq();
    let ll = light_dir.norm_sq();
    lemma_largest(normal);
    lemma_largest(light_dir);
    lemma_length_bounds(normal, largest(normal));
    lemma_length_bounds(light_dir, largest(light_dir));
    assert((len_n + 1) * (len_l + 1) >= 0) by (nonlinear_arith)
        requires
            len_n >= 0,
            len_l >= 0,
    ;
    assert(intensity * ((len_n + 1) * (len_l + 1)) >= 0) by (nonlinear_arith)
        requires
            intensity >= 0,
            (len_n + 1) * (len_l + 1) >= 0,
    ;
    if n_dot_l > 0 {
        lemma_dot_le_lengths(normal, light_dir, largest(normal), largest(light_dir));
        lemma_norm_sq_sign(normal);
        lemma_norm_sq_sign(light_dir);
        lemma_norm_sq_sign(normal.cross(light_dir));
        lemma_sqrt_floor(nn);
        lemma_sqrt_floor(ll);
        lemma_lagrange(normal, light_dir);
        let den = len_n * len_l;
        let top = (len_n + 1) * (len_l + 1);
        lemma_floor_div(intensity * n_dot_l, den);
        assert(nn * ll < top * top) by (nonlinear_arith)
            requires
                0 <= nn < (len_n + 1) * (len_n + 1),
                0 <= ll < (len_l + 1) * (len_l + 1),
                top == (len_n + 1) * (len_l + 1),
                len_n >= 0,
                len_l >= 0,
        {
            let p = (len_n + 1) * (len_n + 1);
            let q = (len_l + 1) * (len_l + 1);
            assert(nn * ll <= (p - 1) * (q - 1));
            assert((p - 1) * (q - 1) < p * q);
            assert(p * q == top * top);
        }
        assert(n_dot_l < top) by (nonlinear_arith)
            requires
                n_dot_l * n_dot_l <= nn * ll,
                nn * ll < top * top,
                n_dot_l > 0,
                top >= 0,
        {
            if n_dot_l >= top {
                assert(n_dot_l * n_dot_l >= top * top);
            }
        }
        lemma_mul_le(intensity, n_dot_l, intensity, top);
        assert(den * (intensity * n_dot_l / den) == (intensity * n_dot_l / den) * den)
            by (nonlinear_arith);
    } else {
        assert(0 * (len_n * len_l) == 0) by (nonlinear_arith);
    }
}

/// A quotient whose numerator is at most `k` times `factor` times the
/// divisor is at most `k` times `factor`.
pub proof fn lemma_scaled_quotient(factor: int, num: int, den: int, k: int)
    requires
        factor >= 0,
        den >= 1,
        0 <= num <= k * den,
        k >= 0,
    ensures
        0 <= factor * num,
        0 <= factor * num / den <= k * factor,
{
    assert(0 <= factor * num <= (k * factor) * den) by (nonlinear_arith)
        requires
            factor >= 0,
            0 <= num <= k * den,
            k >= 0,
    ;
    lemma_div_le(0, factor * num, den);
    lemma_div_le(factor * num, (k * factor) * den, den);
    lemma_div_exact(k * factor, den);
}

/// Once the lights up to some place give an error, all the lights give it.
pub proof fn lemma_lighting_error_stays(
    point: V3,
    normal: V3,
    view: V3,
    specular: Option<u32>,
    lights: Seq<Light>,
    spheres: Seq<Sphere>,
    k: int,
    n: int,
)
    requires
        0 <= k <= n <= lights.len(),
        lighting(point, normal, view, specular, lights.take(k), spheres) is Err,
    ensures
        lighting(point, normal, view, specular, lights.take(n), spheres) == lighting(
            point,
            normal,
            view,
            specular,
            lights.take(k),
            spheres,
        ),
    decreases n - k,
{
    if k < n {
        lemma_lighting_error_stays(point, normal, view, specular, lights, spheres, k, n - 1);
        assert(lights.take(n).drop_last() =~= lights.take(n - 1));
    }
}

/// A single ambient light gives its own intensity, whatever the point, the
/// surface and the spheres.
pub proof fn lemma_single_ambient_light(
    point: V3,
    normal: V3,
    view: V3,
    specular: Option<u32>,
    light: Light,
    spheres: Seq<Sphere>,
)
    requires
        light.light_type is Ambient,
    ensures
        lighting(point, normal, view, specular, seq![light], spheres) == Ok::<int, TraceError>(
            light.intensity as int,
        ),
{
    let lights = seq![light];
    assert(lights.drop_last() =~= Seq::<Light>::empty());
    assert(lights.last() == light);
    assert(lighting(point, normal, view, specular, lights.drop_last(), spheres) == Ok::<
        int,
        TraceError,
    >(0));
}

/// A matte surface has no highlight: without an exponent the specular
/// share of every light is zero, and what a light adds is its diffuse
/// share alone.
pub proof fn lemma_matte_surface(
    point: V3,
    normal: V3,
    view: V3,
    light_dir: V3,
    t_max: int,
    intensity: int,
    spheres: Seq<Sphere>,
)
    ensures
        specular_intensity(normal, light_dir, view, None, intensity) == 0,
        directed_light(point, normal, view, None, light_dir, t_max, intensity, spheres) matches Ok(
            share,
        ) ==> share == 0 || share == diffuse_intensity(normal, light_dir, intensity),
{
}

/// The mirror image of a ray about a normal of length one has no
/// component beyond seven times the largest of the ray.
pub proof fn lemma_reflection_bound(normal: V3, ray: V3, m: int)
    requires
        normal.within(ONE as int),
        ray.within(m),
        m >= 0,
    ensures
        reflect(normal, ray).within(7 * m),
{
    let one = ONE as int;
    let k = 2 * normal.dot(ray);
    lemma_dot_bound(normal, ray, one, m);
    let top = 6 * m;
    assert(-(6 * (one * m)) <= k <= 6 * (one * m));
    lemma_mul_bound(normal.x, k, one, 6 * (one * m));
    lemma_mul_bound(normal.y, k, one, 6 * (one * m));
    lemma_mul_bound(normal.z, k, one, 6 * (one * m));
    assert(one * (6 * (one * m)) == top * (one * one) && (-top) * (one * one) == -(top * (one
        * one))) by (nonlinear_arith)
        requires
            top == 6 * m,
    ;
    lemma_div_exact(top, one * one);
    lemma_div_exact(-top, one * one);
    lemma_div_le(normal.x * k, top * (one * one), one * one);
    lemma_div_le(-(top * (one * one)), normal.x * k, one * one);
    lemma_div_le(normal.y * k, top * (one * one), one * one);
    lemma_div_le(-(top * (one * one)), normal.y * k, one * one);
    lemma_div_le(normal.z * k, top * (one * one), one * one);
    lemma_div_le(-(top * (one * one)), normal.z * k, one * one);
}

/// The only error of the lighting is a ray without direction.
pub proof fn lemma_lighting_error(
    point: V3,
    normal: V3,
    view: V3,
    specular: Option<u32>,
    lights: Seq<Light>,
    spheres: Seq<Sphere>,
)
    ensures
        lighting(point, normal, view, specular, lights, spheres) matches Err(e) ==> e
            == TraceError::DegenerateRay,
    decreases lights.len(),
{
    if lights.len() > 0 {
        lemma_lighting_error(point, normal, view, specular, lights.drop_last(), spheres);
    }
}

/// The shadow test decides what a light adds: nothing where its shadow
/// ray meets a sphere, whatever the surface, and else its diffuse and its
/// specular share.
pub proof fn lemma_shadow_decides(
    point: V3,
    normal: V3,
    view: V3,
    specular: Option<u32>,
    light_dir: V3,
    t_max: int,
    intensity: int,
    spheres: Seq<Sphere>,
)
    requires
        !light_dir.is_zero(),
    ensures
        closest_hit(point, light_dir, SHADOW_EPSILON as int, t_max, spheres) is Some
            ==> directed_light(
            point,
            normal,
            view,
            specular,
            light_dir,
            t_max,
            intensity,
            spheres,
        ) == Ok::<int, TraceError>(0),
        closest_hit(point, light_dir, SHADOW_EPSILON as int, t_max, spheres) is None
            ==> directed_light(
            point,
            normal,
            view,
            specular,
            light_dir,
            t_max,
            intensity,
            spheres,
        ) == Ok::<int, TraceError>(
            diffuse_intensity(normal, light_dir, intensity) + specular_intensity(
                normal,
                light_dir,
                view,
                specular,
                intensity,
            ),
        ),
{
}

fn reflect_component(n: i64, k: i128, r: i64) -> (c: i64)
    requires
        -WORLD_MAX <= n <= WORLD_MAX,
        -RAY_MAX <= r <= RAY_MAX,
        -0x3000_0000_0000_0000 <= k <= 0x3000_0000_0000_0000,
    ensures
        c == n * k / (ONE * ONE) - r,
        -0x2000_0000_0000_0000 <= c <= 0x2000_0000_0000_0000,
{
    proof {
        lemma_mul_bound(n as int, k as int, WORLD_MAX as int, 0x3000_0000_0000_0000);
        assert(WORLD_MAX * 0x3000_0000_0000_0000 == 0x1800_0000_0000_0000 * (ONE * ONE))
            by (nonlinear_arith);
        lemma_div_le(n * k, 0x1800_0000_0000_0000 * (ONE * ONE), ONE * ONE);
        lemma_div_le(-0x1800_0000_0000_0000 * (ONE * ONE), n * k, ONE * ONE);
        lemma_div_exact(0x1800_0000_0000_0000, ONE * ONE);
        lemma_div_exact(-0x1800_0000_0000_0000, ONE * ONE);
    }
    let along: i128 = floor_div((n as i128) * k, (ONE as i128) * (ONE as i128));
    (along - (r as i128)) as i64
}

/// Reflects `ray` off a surface with the given normal of length one.
pub fn reflect_ray(normal: &Vec3, ray: &Vec3) -> (reflection: Vec3)
    requires
        normal@.within(WORLD_MAX as int),
        ray@.within(RAY_MAX as int),
    ensures
        reflection@ == reflect(normal@, ray@),
        reflection.in_range(),
{
    proof {
        lemma_dot_bound(normal@, ray@, WORLD_MAX as int, RAY_MAX as int);
    }
    let k: i128 = 2 * normal.dot_wide(ray);
    Vec3 {
        x: reflect_component(normal.x, k, ray.x),
        y: reflect_component(normal.y, k, ray.y),
        z: reflect_component(normal.z, k, ray.z),
    }
}

/// The diffuse share of a light of the given intensity that shines from
/// `direction` on a surface with the given normal. As the intensity times
/// a cosine it exceeds the intensity only by what the rounding of the two
/// lengths allows, and never more than threefold.
pub fn calculate_diffuse_intensity(normal: &Vec3, direction: &Vec3, intensity: i64) -> (share: i64)
    requires
        normal@.within(WORLD_MAX as int),
        direction@.within(RAY_MAX as int),
        0 <= intensity <= INTENSITY_MAX,
    ensures
        share == diffuse_intensity(normal@, direction@, intensity as int),
        0 <= share <= 3 * intensity,
        share * (normal@.length() * direction@.length()) <= intensity * ((normal@.length() + 1) * (
        direction@.length() + 1)),
{
    proof {
        lemma_diffuse_is_a_cosine(normal@, direction@, intensity as int);
    }
    let n_dot_l: i128 = normal.dot_wide(direction);
    if n_dot_l <= 0 {
        return 0;
    }
    let len_n: i64 = normal.length();
    let len_l: i64 = direction.length();
    proof {
        lemma_dot_bound(normal@, direction@, RAY_MAX as int, RAY_MAX as int);
        lemma_dot_le_lengths(normal@, direction@, RAY_MAX as int, RAY_MAX as int);
        lemma_length_bounds(normal@, RAY_MAX as int);
        lemma_length_bounds(direction@, RAY_MAX as int);
        lemma_mul_le(len_n as int, len_l as int, 2 * RAY_MAX, 2 * RAY_MAX);
        lemma_mul_bound(intensity as int, n_dot_l as int, INTENSITY_MAX as int, 3 * (RAY_MAX * RAY_MAX));
        lemma_scaled_quotient(intensity as int, n_dot_l as int, len_n * len_l, 3);
    }
    let den: i128 = (len_n as i128) * (len_l as i128);
    floor_div((intensity as i128) * n_dot_l, den) as i64
}

/// The specular share of a light of the given intensity that shines from
/// `light_dir` on a surface with the given normal and exponent, seen from
/// `view`.
pub fn calculate_specular_intensity(
    normal: &Vec3,
    light_dir: &Vec3,
    view: &Vec3,
    specular: Option<u32>,
    intensity: i64,
) -> (share: i64)
    requires
        normal@.within(WORLD_MAX as int),
        light_dir@.within(RAY_MAX as int),
        view@.within(RAY_MAX as int),
        0 <= intensity <= INTENSITY_MAX,
    ensures
        share == specular_intensity(normal@, light_dir@, view@, specular, intensity as int),
        0 <= share <= intensity,
        specular is None ==> share == 0,
{
    if let Some(exponent) = specular {
        let n_dot_l: i128 = normal.dot_wide(light_dir);
        if n_dot_l > 0 {
            let reflection: Vec3 = reflect_ray(normal, light_dir);
            let r_dot_v: i128 = reflection.dot_wide(view);
            if r_dot_v > 0 {
                let len_r: i64 = reflection.length();
                let len_v: i64 = view.length();
                proof {
                    let lim: int = 0x2000_0000_0000_0000;
                    lemma_dot_bound(reflection@, view@, lim, RAY_MAX as int);
                    lemma_dot_le_lengths(reflection@, view@, lim, RAY_MAX as int);
                    lemma_length_bounds(reflection@, lim);
                    lemma_length_bounds(view@, RAY_MAX as int);
                    lemma_mul_le(len_r as int, len_v as int, 2 * lim, 2 * RAY_MAX);
                    lemma_mul_bound(r_dot_v as int, ONE as int, 3 * (lim * RAY_MAX), ONE as int);
                    assert(r_dot_v * ONE == ONE * r_dot_v) by (nonlinear_arith);
                    lemma_scaled_quotient(ONE as int, r_dot_v as int, len_r * len_v, 3);
                }
                let den: i128 = (len_r as i128) * (len_v as i128);
                let q: i128 = floor_div(r_dot_v * (ONE as i128), den);
                let cosine: i64 = if q > ONE as i128 {
                    ONE
                } else {
                    q as i64
                };
                let power: i64 = fixed_pow(cosine, exponent);
                proof {
                    lemma_mul_le(intensity as int, power as int, intensity as int, ONE as int);
                    lemma_div_le(0, intensity * power, ONE as int);
                    lemma_div_le(intensity * power, intensity * ONE, ONE as int);
                    lemma_div_exact(intensity as int, ONE as int);
                }
                return floor_div(wide_mul(intensity, power), ONE as i128) as i64;
            }
        }
    }
    0
}

fn shine(
    point: &Vec3,
    normal: &Vec3,
    view: &Vec3,
    specular: Option<u32>,
    light_dir: &Vec3,
    t_max: i64,
    intensity: i64,
    spheres: &[Sphere],
) -> (share: Result<i64, TraceError>)
    requires
        point@.within(WORLD_MAX as int),
        normal@.within(WORLD_MAX as int),
        view@.within(RAY_MAX as int),
        light_dir@.within(RAY_MAX as int),
        0 <= intensity <= INTENSITY_MAX,
        spheres_wf(spheres@),
    ensures
        directed_light(
            point@,
            normal@,
            view@,
            specular,
            light_dir@,
            t_max as int,
            intensity as int,
            spheres@,
        ) == match share {
            Ok(s) => Ok::<int, TraceError>(s as int),
            Err(e) => Err(e),
        },
        share matches Ok(s) ==> 0 <= s <= 4 * intensity,
{
    let shadow = closest_intersection(point, light_dir, SHADOW_EPSILON, t_max, spheres);
    match shadow {
        Err(e) => Err(e),
        Ok(found) => {
            if found.0.is_some() {
                Ok(0)
            } else {
                let diffuse: i64 = calculate_diffuse_intensity(normal, light_dir, intensity);
                let highlight: i64 = calculate_specular_intensity(
                    normal,
                    light_dir,
                    view,
                    specular,
                    intensity,
                );
                Ok(diffuse + highlight)
            }
        },
    }
}

/// The intensity of the light at `point` on a surface with the given
/// normal and exponent, seen from `view`: the sum over the lights, not
/// limited to `ONE`. A light whose direction from the point is the zero
/// vector is an error.
pub fn compute_lighting(
    point: &Vec3,
    normal: &Vec3,
    view: &Vec3,
    specular: Option<u32>,
    lights: &[Light],
    spheres: &[Sphere],
) -> (intensity: Result<i64, TraceError>)
    requires
        point@.within(WORLD_MAX as int),
        normal@.within(WORLD_MAX as int),
        view@.within(RAY_MAX as int),
        lights_wf(lights@),
        spheres_wf(spheres@),
    ensures
        lighting(point@, normal@, view@, specular, lights@, spheres@) == match intensity {
            Ok(sum) => Ok::<int, TraceError>(sum as int),
            Err(e) => Err(e),
        },
        intensity matches Ok(sum) ==> 0 <= sum <= 0x1_0000_0000 * lights.len(),
{
    let mut total: i64 = 0;
    let mut i: usize = 0;
    assert(lights@.take(0) =~= Seq::<Light>::empty());
    while i < lights.len()
        invariant
            0 <= i <= lights.len(),
            point@.within(WORLD_MAX as int),
            normal@.within(WORLD_MAX as int),
            view@.within(RAY_MAX as int),
            lights_wf(lights@),
            spheres_wf(spheres@),
            lighting(point@, normal@, view@, specular, lights@.take(i as int), spheres@) == Ok::<
                int,
                TraceError,
            >(total as int),
            0 <= total <= 0x1_0000_0000 * i,
        decreases lights.len() - i,
    {
        let light: &Light = &lights[i];
        assert(light.wf());
        proof {
            assert(lights@.take(i + 1).drop_last() =~= lights@.take(i as int));
            assert(lights@.take(i + 1).last() == lights@[i as int]);
        }
        let share: Result<i64, TraceError> = match &light.light_type {
            LightType::Ambient => Ok(light.intensity),
            LightType::Point { position } => {
                let light_dir: Vec3 = position.sub(point);
                proof {
                    lemma_length_bounds(light_dir@, RAY_MAX as int);
                }
                let distance: i64 = light_dir.length();
                shine(point, normal, view, specular, &light_dir, distance, light.intensity, spheres)
            },
            LightType::Directional { direction } => shine(
                point,
                normal,
                view,
                specular,
                direction,
                INFINITY,
                light.intensity,
                spheres,
            ),
        };
        match share {
            Err(e) => {
                proof {
                    lemma_lighting_error_stays(
                        point@,
                        normal@,
                        view@,
                        specular,
                        lights@,
                        spheres@,
                        i + 1,
                        lights.len() as int,
                    );
                    assert(lights@.take(lights.len() as int) =~= lights@);
                }
                return Err(e);
            },
            Ok(s) => {
                total = total + s;
            },
        }
        i = i + 1;
    }
    assert(lights@.take(lights.len() as int) =~= lights@);
    Ok(total)
}

} // verus!
