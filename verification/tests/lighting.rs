use raytracer::color::Color;
use raytracer::error::TraceError;
use raytracer::fixed::{INTENSITY_MAX, ONE, RAY_MAX, WORLD_MAX};
use raytracer::scene::{
    generate_default_lights, generate_default_spheres, Light, LightType, Material, Scene, Sphere,
};
use raytracer::shading::{
    calculate_diffuse_intensity, calculate_specular_intensity, compute_lighting, reflect_ray,
};
use raytracer::vector::Vec3;

fn white() -> Color {
    Color::new(255, 255, 255)
}

fn matte(center: Vec3, radius: i64) -> Sphere {
    Sphere { center, radius, material: Material { color: white(), specular: None, reflective: None } }
}

fn up() -> Vec3 {
    Vec3::new(0, ONE, 0)
}

#[test]
fn light_constructors_set_the_variant() {
    let a = Light::new_ambient(5, white());
    assert_eq!(a, Light { light_type: LightType::Ambient, intensity: 5, color: white() });
    let d = Light::new_directional(Vec3::new(1, 2, 3), 6, Color::new(1, 2, 3));
    assert_eq!(d.light_type, LightType::Directional { direction: Vec3::new(1, 2, 3) });
    assert_eq!((d.intensity, d.color), (6, Color::new(1, 2, 3)));
    let p = Light::new_point(Vec3::new(4, 5, 6), 7, white());
    assert_eq!(p.light_type, LightType::Point { position: Vec3::new(4, 5, 6) });
    assert_eq!(p.intensity, 7);
}

#[test]
fn default_scene_has_four_spheres_and_three_lights() {
    let spheres = generate_default_spheres();
    assert_eq!(spheres.len(), 4);
    assert_eq!(spheres[0].center, Vec3::new(0, -ONE, 3 * ONE));
    assert_eq!(spheres[0].radius, ONE);
    assert_eq!(spheres[0].material.color, Color::new(255, 0, 0));
    assert_eq!(spheres[0].material.specular, Some(500));
    assert_eq!(spheres[1].center, Vec3::new(2 * ONE, 0, 4 * ONE));
    assert_eq!(spheres[1].material.color, Color::new(0, 0, 255));
    assert_eq!(spheres[2].center, Vec3::new(-2 * ONE, 0, 4 * ONE));
    assert_eq!(spheres[2].material.specular, Some(10));
    assert_eq!(spheres[3].center, Vec3::new(0, -5001 * ONE, 0));
    assert_eq!(spheres[3].radius, 5000 * ONE);
    assert_eq!(spheres[3].material.color, Color::new(255, 255, 0));
    assert_eq!(spheres[3].material.specular, Some(1000));
    let lights = generate_default_lights();
    assert_eq!(lights.len(), 3);
    assert_eq!(lights[0], Light::new_ambient(6553, white()));
    assert_eq!(lights[1], Light::new_directional(Vec3::new(ONE, 4 * ONE, 4 * ONE), 6553, white()));
    assert_eq!(lights[2], Light::new_point(Vec3::new(2 * ONE, ONE, 0), 19660, white()));
    let scene = Scene::basic_scene();
    assert_eq!(scene.spheres, spheres);
    assert_eq!(scene.lights, lights);
}

#[test]
fn reflection_mirrors_about_the_normal() {
    assert_eq!(reflect_ray(&up(), &Vec3::new(ONE, ONE, 0)), Vec3::new(-ONE, ONE, 0));
    assert_eq!(reflect_ray(&up(), &Vec3::new(3 * ONE, -2 * ONE, 5)), Vec3::new(-3 * ONE, -2 * ONE, -5));
    assert_eq!(reflect_ray(&up(), &up()), up());
    let n = Vec3::new(19660, 26214, 0);
    assert_eq!(
        reflect_ray(&n, &Vec3::new(RAY_MAX, RAY_MAX, 0)),
        Vec3::new(730023856, 1331340248, 0)
    );
}

#[test]
fn diffuse_is_the_cosine_times_the_intensity() {
    assert_eq!(calculate_diffuse_intensity(&up(), &up(), ONE), ONE);
    assert_eq!(calculate_diffuse_intensity(&up(), &Vec3::new(ONE, ONE, 0), ONE), 23170);
    assert_eq!(
        calculate_diffuse_intensity(&Vec3::new(0, 2 * ONE, 0), &Vec3::new(3 * ONE, 4 * ONE, 0), ONE / 2),
        13107
    );
}

#[test]
fn diffuse_is_zero_for_a_light_behind_the_surface() {
    assert_eq!(calculate_diffuse_intensity(&up(), &Vec3::new(ONE, -1, 0), ONE), 0);
    assert_eq!(calculate_diffuse_intensity(&up(), &Vec3::new(ONE, 0, 0), ONE), 0);
    assert_eq!(calculate_diffuse_intensity(&up(), &Vec3::new(0, 0, 0), ONE), 0);
    assert_eq!(calculate_diffuse_intensity(&Vec3::new(0, 0, 0), &up(), ONE), 0);
}

#[test]
fn diffuse_divides_by_both_lengths() {
    let l = Vec3::new(ONE, ONE, 0);
    let a = calculate_diffuse_intensity(&up(), &l, ONE);
    let b = calculate_diffuse_intensity(&Vec3::new(0, 1000 * ONE, 0), &l.scale(16 * ONE), ONE);
    assert_eq!((a, b), (23170, 23170));
    assert_eq!(calculate_diffuse_intensity(&up(), &l, INTENSITY_MAX), 759265690);
}

#[test]
fn specular_is_the_cosine_to_the_exponent() {
    let l = Vec3::new(ONE, ONE, 0);
    let v = Vec3::new(-ONE, 2 * ONE, 0);
    assert_eq!(calculate_specular_intensity(&up(), &up(), &up(), Some(10), ONE), ONE);
    assert_eq!(calculate_specular_intensity(&up(), &l, &v, Some(1), ONE), 31087);
    assert_eq!(calculate_specular_intensity(&up(), &l, &v, Some(10), ONE), 19350);
    assert_eq!(calculate_specular_intensity(&up(), &l, &v, Some(0), ONE / 2), ONE / 2);
}

#[test]
fn specular_is_zero_away_from_the_mirrored_light() {
    let l = Vec3::new(ONE, ONE, 0);
    assert_eq!(calculate_specular_intensity(&up(), &l, &Vec3::new(ONE, -ONE, 0), Some(10), ONE), 0);
    assert_eq!(calculate_specular_intensity(&up(), &Vec3::new(ONE, -ONE, 0), &up(), Some(10), ONE), 0);
    assert_eq!(calculate_specular_intensity(&up(), &l, &Vec3::new(0, 0, 0), Some(10), ONE), 0);
}

#[test]
fn matte_surface_has_no_specular_share() {
    let l = Vec3::new(ONE, ONE, 0);
    let v = Vec3::new(-ONE, 2 * ONE, 0);
    assert_eq!(calculate_specular_intensity(&up(), &l, &v, None, ONE), 0);
    assert_eq!(calculate_specular_intensity(&up(), &up(), &up(), None, INTENSITY_MAX), 0);
    let lights = generate_default_lights();
    let none: [Sphere; 0] = [];
    let o = Vec3::new(0, 0, 0);
    let shiny = compute_lighting(&o, &up(), &up(), Some(10), &lights, &none).unwrap();
    let dull = compute_lighting(&o, &up(), &up(), None, &lights, &none).unwrap();
    assert_eq!((shiny, dull), (20087, 19907));
    let diffuse_only = 6553
        + calculate_diffuse_intensity(&up(), &Vec3::new(ONE, 4 * ONE, 4 * ONE), 6553)
        + calculate_diffuse_intensity(&up(), &Vec3::new(2 * ONE, ONE, 0), 19660);
    assert_eq!(dull, diffuse_only);
}

#[test]
fn a_single_ambient_light_gives_its_intensity() {
    let spheres = [matte(Vec3::new(0, -ONE, 3 * ONE), ONE)];
    let intensities: [i64; 5] = [0, 1, 6553, ONE, INTENSITY_MAX];
    let places = [
        (Vec3::new(0, 0, 3 * ONE), up()),
        (Vec3::new(0, -ONE, 2 * ONE), Vec3::new(0, 0, -ONE)),
        (Vec3::new(5, 6, 7), Vec3::new(0, 0, 0)),
        (Vec3::new(-ONE, -ONE, -ONE), Vec3::new(WORLD_MAX, -WORLD_MAX, 3)),
    ];
    for i in intensities {
        let lights = [Light::new_ambient(i, white())];
        for (point, normal) in places {
            let view = Vec3::new(0, 0, -ONE);
            assert_eq!(compute_lighting(&point, &normal, &view, Some(500), &lights, &spheres), Ok(i));
            assert_eq!(compute_lighting(&point, &normal, &view, None, &lights, &spheres), Ok(i));
        }
    }
}

#[test]
fn without_lights_there_is_no_light() {
    let none: [Light; 0] = [];
    let spheres = generate_default_spheres();
    let o = Vec3::new(0, 0, 0);
    assert_eq!(compute_lighting(&o, &up(), &up(), Some(3), &none, &spheres), Ok(0));
}

#[test]
fn lighting_of_the_default_scene() {
    let scene = Scene::basic_scene();
    let point = Vec3::new(0, 0, 3 * ONE);
    let view = Vec3::new(0, 0, -ONE);
    assert_eq!(compute_lighting(&point, &up(), &view, Some(500), &scene.lights, &scene.spheres), Ok(16369));
    assert_eq!(compute_lighting(&point, &up(), &view, None, &scene.lights, &scene.spheres), Ok(16369));
}

#[test]
fn a_sphere_between_light_and_surface_casts_a_shadow() {
    let lit = matte(Vec3::new(0, 0, 0), 25600);
    let occluder = matte(Vec3::new(0, 5 * ONE / 2, 0), 3 * ONE / 10);
    let lights = [Light::new_point(Vec3::new(0, 5 * ONE, 0), ONE, white())];
    let view = Vec3::new(0, 0, -ONE);
    let top = Vec3::new(0, 25600, 0);
    let side = Vec3::new(24576, 7168, 0);
    let both = [occluder, lit];
    let alone = [lit];
    assert_eq!(compute_lighting(&top, &top, &view, None, &lights, &both), Ok(0));
    assert_eq!(compute_lighting(&top, &top, &view, None, &lights, &alone), Ok(ONE));
    assert_eq!(compute_lighting(&side, &side, &view, None, &lights, &both), Ok(4189));
    assert_eq!(compute_lighting(&side, &side, &view, None, &lights, &alone), Ok(4189));
}

#[test]
fn a_point_light_is_shadowed_up_to_the_parameter_of_its_distance() {
    let lights = [Light::new_point(Vec3::new(0, 2 * ONE, 0), ONE, white())];
    let o = Vec3::new(0, 0, 0);
    let view = Vec3::new(0, 0, -ONE);
    let far = [matte(Vec3::new(0, 8 * ONE, 0), ONE)];
    let between = [matte(Vec3::new(0, 3 * ONE, 0), ONE / 2)];
    let none: [Sphere; 0] = [];
    assert_eq!(compute_lighting(&o, &up(), &view, None, &lights, &none), Ok(ONE));
    assert_eq!(compute_lighting(&o, &up(), &view, None, &lights, &far), Ok(ONE));
    assert_eq!(compute_lighting(&o, &up(), &view, None, &lights, &between), Ok(0));
}

#[test]
fn a_directional_light_is_shadowed_at_any_distance() {
    let lights = [Light::new_directional(up(), ONE / 2, white())];
    let o = Vec3::new(0, 0, 0);
    let view = Vec3::new(0, 0, -ONE);
    let far = [matte(Vec3::new(0, 8 * ONE, 0), ONE)];
    let none: [Sphere; 0] = [];
    assert_eq!(compute_lighting(&o, &up(), &view, None, &lights, &far), Ok(0));
    assert_eq!(compute_lighting(&o, &up(), &view, None, &lights, &none), Ok(ONE / 2));
}

#[test]
fn the_surface_does_not_shadow_itself() {
    let s = matte(Vec3::new(0, 0, 0), ONE);
    let lights = [Light::new_directional(up(), ONE, white())];
    let view = Vec3::new(0, 0, -ONE);
    let top = Vec3::new(0, ONE, 0);
    assert_eq!(compute_lighting(&top, &top, &view, None, &lights, &[s]), Ok(ONE));
    let bottom = Vec3::new(0, -ONE, 0);
    assert_eq!(compute_lighting(&bottom, &bottom, &view, None, &lights, &[s]), Ok(0));
}

#[test]
fn a_light_at_the_shaded_point_is_rejected() {
    let point = Vec3::new(ONE, 2 * ONE, 3 * ONE);
    let view = Vec3::new(0, 0, -ONE);
    let none: [Sphere; 0] = [];
    let at_point = [Light::new_ambient(ONE, white()), Light::new_point(point, ONE, white())];
    assert_eq!(
        compute_lighting(&point, &up(), &view, None, &at_point, &none),
        Err(TraceError::DegenerateRay)
    );
    let no_direction = [
        Light::new_directional(Vec3::new(0, 0, 0), ONE, white()),
        Light::new_ambient(ONE, white()),
    ];
    assert_eq!(
        compute_lighting(&point, &up(), &view, Some(4), &no_direction, &none),
        Err(TraceError::DegenerateRay)
    );
}

#[test]
fn intensities_add_up_without_a_limit() {
    let lights = [
        Light::new_ambient(INTENSITY_MAX, white()),
        Light::new_directional(up(), INTENSITY_MAX, white()),
        Light::new_point(Vec3::new(0, ONE, 0), INTENSITY_MAX, white()),
    ];
    let o = Vec3::new(0, 0, 0);
    let none: [Sphere; 0] = [];
    assert_eq!(compute_lighting(&o, &up(), &up(), Some(7), &lights, &none), Ok(5 * INTENSITY_MAX));
}
