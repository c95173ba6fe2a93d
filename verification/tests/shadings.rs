use raytracer::canvas::render;
use raytracer::color::Color;
use raytracer::error::TraceError;
use raytracer::fixed::{INFINITY, ONE};
use raytracer::render::{is_clear, render_pixel, Camera};
use raytracer::scene::{Light, Material, Scene, Sphere};
use raytracer::tracer::{trace, trace_as, Shading};
use raytracer::vector::Vec3;

fn on_white(shading: Shading) -> Camera {
    Camera { shading, background: Color::new(255, 255, 255), ..Camera::basic_camera() }
}

fn ball(center: Vec3, radius: i64, color: Color, specular: Option<u32>) -> Sphere {
    Sphere { center, radius, material: Material { color, specular, reflective: Some(ONE / 2) } }
}

fn start() -> Vec3 {
    Vec3::new(0, 0, 0)
}

fn ahead() -> Vec3 {
    Vec3::new(0, 0, ONE)
}

#[test]
fn the_basic_camera_shades_in_full() {
    assert_eq!(Camera::basic_camera().shading, Shading::Full);
}

#[test]
fn flat_shading_shows_the_colours_of_the_spheres() {
    let camera = on_white(Shading::Flat);
    let scene = Scene::basic_scene();
    let expected = [
        ((200, 200), (255, 0, 0)),
        ((100, 200), (0, 255, 0)),
        ((300, 200), (0, 0, 255)),
        ((20, 395), (255, 255, 0)),
        ((285, 215), (255, 255, 0)),
        ((0, 0), (255, 255, 255)),
        ((215, 185), (255, 255, 255)),
    ];
    for ((x, y), (r, g, b)) in expected {
        assert_eq!(render_pixel(&camera, &scene, x, y), Ok(Color::new(r, g, b)));
    }
}

#[test]
fn flat_shading_needs_no_light() {
    let camera = on_white(Shading::Flat);
    let scene = Scene { spheres: Scene::basic_scene().spheres, lights: Vec::new() };
    assert_eq!(render_pixel(&camera, &scene, 200, 200), Ok(Color::new(255, 0, 0)));
    assert_eq!(render_pixel(&camera, &scene, 0, 0), Ok(Color::new(255, 255, 255)));
}

#[test]
fn diffuse_shading_of_the_default_scene() {
    let camera = on_white(Shading::Diffuse);
    let scene = Scene::basic_scene();
    let expected = [
        ((200, 200), (127, 0, 0)),
        ((200, 230), (167, 0, 0)),
        ((100, 200), (0, 149, 0)),
        ((300, 200), (0, 0, 50)),
        ((0, 100), (0, 135, 0)),
        ((60, 390), (163, 163, 0)),
        ((285, 215), (96, 96, 0)),
        ((255, 210), (92, 92, 0)),
        ((0, 0), (255, 255, 255)),
    ];
    for ((x, y), (r, g, b)) in expected {
        assert_eq!(render_pixel(&camera, &scene, x, y), Ok(Color::new(r, g, b)));
    }
}

#[test]
fn specular_shading_adds_the_highlights() {
    let camera = on_white(Shading::Specular);
    let scene = Scene::basic_scene();
    let expected = [
        ((200, 200), (127, 0, 0)),
        ((100, 200), (0, 151, 0)),
        ((0, 100), (0, 145, 0)),
        ((5, 100), (0, 146, 0)),
        ((60, 390), (163, 163, 0)),
        ((285, 215), (96, 96, 0)),
        ((0, 0), (255, 255, 255)),
    ];
    for ((x, y), (r, g, b)) in expected {
        assert_eq!(render_pixel(&camera, &scene, x, y), Ok(Color::new(r, g, b)));
    }
}

#[test]
fn full_shading_adds_the_shadows() {
    let camera = Camera { recursion_depth: 0, ..on_white(Shading::Full) };
    let scene = Scene::basic_scene();
    let expected = [
        ((200, 200), (127, 0, 0)),
        ((0, 100), (0, 145, 0)),
        ((60, 390), (127, 127, 0)),
        ((285, 215), (86, 86, 0)),
        ((255, 210), (86, 86, 0)),
        ((0, 0), (255, 255, 255)),
    ];
    for ((x, y), (r, g, b)) in expected {
        assert_eq!(render_pixel(&camera, &scene, x, y), Ok(Color::new(r, g, b)));
    }
}

#[test]
fn only_the_full_shading_knows_shadows() {
    let lit = ball(Vec3::new(0, 0, 5 * ONE), ONE, Color::new(200, 100, 50), Some(10));
    let occluder = ball(Vec3::new(0, 0, -5 * ONE), 3 * ONE, Color::new(9, 9, 9), None);
    let spheres = [lit, occluder];
    let lights = [Light::new_point(Vec3::new(0, 0, -20 * ONE), ONE, Color::new(255, 255, 255))];
    let black = Color::new(0, 0, 0);
    let see = |shading: Shading, depth: u32| {
        trace_as(shading, &start(), &ahead(), ONE, INFINITY, &spheres, &lights, depth, black)
    };
    assert_eq!(see(Shading::Flat, 3), Ok(Color::new(200, 100, 50)));
    assert_eq!(see(Shading::Diffuse, 3), Ok(Color::new(200, 100, 50)));
    assert_eq!(see(Shading::Specular, 3), Ok(Color::new(255, 200, 100)));
    assert_eq!(see(Shading::Specular, 0), Ok(Color::new(255, 200, 100)));
    assert_eq!(see(Shading::Full, 0), Ok(black));
    assert_eq!(see(Shading::Full, 3), Ok(black));
}

#[test]
fn full_shading_is_the_tracer() {
    let scene = Scene::basic_scene();
    let black = Color::new(0, 0, 0);
    let directions = [(0, 0, ONE), (0, -2458, ONE), (-8192, 0, ONE), (-16384, 16384, ONE)];
    for (x, y, z) in directions {
        let d = Vec3::new(x, y, z);
        for depth in [0, 3] {
            let a = trace_as(Shading::Full, &start(), &d, ONE, INFINITY, &scene.spheres, &scene.lights, depth, black);
            let b = trace(&start(), &d, ONE, INFINITY, &scene.spheres, &scene.lights, depth, black);
            assert_eq!(a, b);
        }
    }
}

#[test]
fn every_shading_rejects_a_ray_without_direction() {
    let scene = Scene::basic_scene();
    let black = Color::new(0, 0, 0);
    for shading in [Shading::Flat, Shading::Diffuse, Shading::Specular, Shading::Full] {
        let seen = trace_as(shading, &start(), &start(), ONE, INFINITY, &scene.spheres, &scene.lights, 3, black);
        assert_eq!(seen, Err(TraceError::DegenerateRay));
    }
}

#[test]
fn lit_shadings_reject_a_light_at_the_hit_point() {
    let spheres = [ball(Vec3::new(0, 0, 5 * ONE), ONE, Color::new(9, 9, 9), Some(5))];
    let lights = [Light::new_point(Vec3::new(0, 0, 4 * ONE), ONE, Color::new(255, 255, 255))];
    let black = Color::new(0, 0, 0);
    let see = |shading: Shading| trace_as(shading, &start(), &ahead(), ONE, INFINITY, &spheres, &lights, 3, black);
    assert_eq!(see(Shading::Flat), Ok(Color::new(9, 9, 9)));
    assert_eq!(see(Shading::Diffuse), Err(TraceError::DegenerateRay));
    assert_eq!(see(Shading::Specular), Err(TraceError::DegenerateRay));
    assert_eq!(see(Shading::Full), Err(TraceError::DegenerateRay));
}

#[test]
fn lit_shadings_reject_a_hit_point_at_the_centre() {
    let tiny = Sphere {
        center: Vec3::new(0, 0, ONE),
        radius: 1,
        material: Material { color: Color::new(1, 1, 1), specular: None, reflective: None },
    };
    let spheres = [tiny];
    let lights = [Light::new_ambient(ONE, Color::new(255, 255, 255))];
    let long = Vec3::new(0, 0, 2 * ONE);
    let black = Color::new(0, 0, 0);
    let see = |shading: Shading| trace_as(shading, &start(), &long, ONE / 2, INFINITY, &spheres, &lights, 3, black);
    assert_eq!(see(Shading::Flat), Ok(Color::new(1, 1, 1)));
    assert_eq!(see(Shading::Diffuse), Err(TraceError::DegenerateNormal));
    assert_eq!(see(Shading::Specular), Err(TraceError::DegenerateNormal));
    assert_eq!(see(Shading::Full), Err(TraceError::DegenerateNormal));
}

#[test]
fn a_small_picture_in_diffuse_shading() {
    let camera = Camera { canvas_width: 4, canvas_height: 3, ..on_white(Shading::Diffuse) };
    let rows: [[(u8, u8, u8); 4]; 3] = [
        [(255, 255, 255); 4],
        [(0, 189, 0), (0, 149, 0), (127, 0, 0), (0, 0, 50)],
        [(147, 147, 0), (83, 0, 0), (165, 0, 0), (196, 0, 0)],
    ];
    let mut expected: Vec<u8> = Vec::new();
    for row in rows {
        for (r, g, b) in row {
            expected.push(r);
            expected.push(g);
            expected.push(b);
        }
    }
    assert_eq!(render(&camera, &Scene::basic_scene()), Ok(expected));
}

#[test]
fn a_clear_scene_is_rendered_under_every_shading() {
    let scene = Scene::basic_scene();
    for shading in [Shading::Flat, Shading::Diffuse, Shading::Specular, Shading::Full] {
        let camera = Camera { canvas_width: 40, canvas_height: 40, ..on_white(shading) };
        assert!(is_clear(&camera, &scene));
        assert!(render(&camera, &scene).is_ok());
    }
}
