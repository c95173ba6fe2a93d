use raytracer::color::Color;
use raytracer::error::TraceError;
use raytracer::fixed::{INFINITY, ONE, RAY_MAX, SURFACE_MARGIN, WORLD_MAX};
use raytracer::geometry::{canvas_to_viewport, closest_intersection, intersect_ray_sphere};
use raytracer::scene::{Material, Sphere};
use raytracer::vector::Vec3;

fn sphere(center: Vec3, radius: i64, red: u8) -> Sphere {
    Sphere {
        center,
        radius,
        material: Material { color: Color::new(red, 0, 0), specular: None, reflective: None },
    }
}

fn origin() -> Vec3 {
    Vec3::new(0, 0, 0)
}

#[test]
fn viewport_direction_of_a_pixel() {
    assert_eq!(canvas_to_viewport(0, 0, 400, 400, ONE, ONE), Vec3::new(0, 0, ONE));
    assert_eq!(canvas_to_viewport(100, 50, 400, 400, ONE, ONE), Vec3::new(8192, -4096, ONE));
    assert_eq!(canvas_to_viewport(-200, -200, 400, 400, ONE, ONE), Vec3::new(-16384, 16384, ONE));
}

#[test]
fn viewport_direction_rounds_down() {
    assert_eq!(canvas_to_viewport(-1, 1, 400, 400, ONE, ONE), Vec3::new(-82, -82, ONE));
    assert_eq!(canvas_to_viewport(1, -1, 400, 400, ONE, ONE), Vec3::new(81, 81, ONE));
}

#[test]
fn viewport_direction_uses_each_dimension() {
    let v = canvas_to_viewport(10, 10, 100, 200, 2 * ONE, 3 * ONE);
    assert_eq!(v, Vec3::new(6553, -3277, 3 * ONE));
    let w = canvas_to_viewport(i32::MIN, i32::MIN, 1, u32::MAX, RAY_MAX, -7);
    assert_eq!(w.x, (i32::MIN as i64) * RAY_MAX);
    assert_eq!(w.y, 536870912);
    assert_eq!(w.z, -7);
}

#[test]
fn ray_through_the_centre_has_two_roots() {
    let s = sphere(Vec3::new(0, 0, 3 * ONE), ONE, 1);
    let roots = intersect_ray_sphere(&origin(), &Vec3::new(0, 0, ONE), &s);
    assert_eq!(roots, Ok((4 * ONE, 2 * ONE)));
}

#[test]
fn a_longer_direction_gives_smaller_roots() {
    let s = sphere(Vec3::new(0, 0, 3 * ONE), ONE, 1);
    let roots = intersect_ray_sphere(&origin(), &Vec3::new(0, 0, 2 * ONE), &s);
    assert_eq!(roots, Ok((2 * ONE, ONE)));
}

#[test]
fn roots_behind_the_origin_are_negative() {
    let s = sphere(Vec3::new(0, 0, 3 * ONE), ONE, 1);
    let roots = intersect_ray_sphere(&origin(), &Vec3::new(0, 0, -ONE), &s);
    assert_eq!(roots, Ok((-2 * ONE, -4 * ONE)));
}

#[test]
fn tangent_ray_has_a_double_root() {
    let s = sphere(Vec3::new(0, -ONE, 3 * ONE), ONE, 1);
    let roots = intersect_ray_sphere(&origin(), &Vec3::new(0, 0, ONE), &s);
    assert_eq!(roots, Ok((3 * ONE, 3 * ONE)));
}

#[test]
fn ray_that_passes_beside_the_sphere_misses() {
    let s = sphere(Vec3::new(0, 0, 3 * ONE), ONE, 1);
    let roots = intersect_ray_sphere(&origin(), &Vec3::new(ONE, 0, 0), &s);
    assert_eq!(roots, Ok((INFINITY, INFINITY)));
    let near = sphere(Vec3::new(0, -ONE - 1, 3 * ONE), ONE, 1);
    let grazing = intersect_ray_sphere(&origin(), &Vec3::new(0, 0, ONE), &near);
    assert_eq!(grazing, Ok((INFINITY, INFINITY)));
}

#[test]
fn skew_ray_roots_are_rounded_down() {
    let s = sphere(Vec3::new(ONE, 2 * ONE + 100, 3 * ONE), ONE / 2, 1);
    let roots = intersect_ray_sphere(&origin(), &Vec3::new(ONE, 2 * ONE, 3 * ONE), &s);
    assert_eq!(roots, Ok((37161, 28403)));
}

#[test]
fn ray_without_direction_is_rejected() {
    let s = sphere(Vec3::new(0, 0, 3 * ONE), ONE, 1);
    let roots = intersect_ray_sphere(&origin(), &Vec3::new(0, 0, 0), &s);
    assert_eq!(roots, Err(TraceError::DegenerateRay));
    let spheres = [s];
    let found = closest_intersection(&origin(), &Vec3::new(0, 0, 0), ONE, INFINITY, &spheres);
    assert_eq!(found, Err(TraceError::DegenerateRay));
    let none: [Sphere; 0] = [];
    let empty = closest_intersection(&origin(), &Vec3::new(0, 0, 0), ONE, INFINITY, &none);
    assert_eq!(empty, Err(TraceError::DegenerateRay));
}

#[test]
fn roots_at_the_limits_of_the_world() {
    let half = (WORLD_MAX - SURFACE_MARGIN) / 2;
    let s = sphere(Vec3::new(half, half, half), WORLD_MAX - SURFACE_MARGIN - half, 1);
    let o = Vec3::new(-WORLD_MAX, -WORLD_MAX, -WORLD_MAX);
    let d = Vec3::new(RAY_MAX, RAY_MAX, RAY_MAX);
    let roots = intersect_ray_sphere(&o, &d, &s);
    assert_eq!(roots, Ok((29304, 19845)));
    let slow = intersect_ray_sphere(&o, &Vec3::new(1, 1, 1), &s);
    assert_eq!(roots.map(|r| r.0 > r.1), Ok(true));
    assert_eq!(slow, Ok((31465012019200, 21309398564864)));
}

#[test]
fn piercing_ray_has_its_midpoint_inside_the_sphere() {
    let o = Vec3::new(ONE / 2, ONE / 3, -7 * ONE);
    let d = Vec3::new(500, -1000, 35000);
    let s = sphere(Vec3::new(ONE, 0, 3 * ONE), 3 * ONE / 2, 1);
    let (t1, t2) = intersect_ray_sphere(&o, &d, &s).unwrap();
    assert_eq!((t1, t2), (351629, 262333));
    assert!(t1 < INFINITY && t2 < INFINITY && t2 > 0);
    let mid = (t1 + t2) / 2;
    let p = o.add(&d.scale(mid));
    assert_eq!(p, Vec3::new(21068, 1553, 98515));
    assert!(p.sub(&s.center).length() < s.radius);
    assert_eq!(p.sub(&s.center).length(), 11804);
}

#[test]
fn distant_ray_misses() {
    let o = Vec3::new(ONE / 2, ONE / 3, -7 * ONE);
    let s = sphere(Vec3::new(ONE, 0, 3 * ONE), 3 * ONE / 2, 1);
    let roots = intersect_ray_sphere(&o, &Vec3::new(35000, 0, 500), &s);
    assert_eq!(roots, Ok((INFINITY, INFINITY)));
}

#[test]
fn closest_intersection_takes_the_nearer_sphere() {
    let far = sphere(Vec3::new(0, 0, 9 * ONE), ONE, 1);
    let near = sphere(Vec3::new(0, 0, 3 * ONE), ONE, 2);
    let spheres = [far, near];
    let found = closest_intersection(&origin(), &Vec3::new(0, 0, ONE), ONE, INFINITY, &spheres);
    assert_eq!(found, Ok((Some(&spheres[1]), 2 * ONE)));
    let swapped = [near, far];
    let again = closest_intersection(&origin(), &Vec3::new(0, 0, ONE), ONE, INFINITY, &swapped);
    assert_eq!(again, Ok((Some(&swapped[0]), 2 * ONE)));
}

#[test]
fn closest_intersection_without_a_hit() {
    let s = sphere(Vec3::new(0, 0, 3 * ONE), ONE, 1);
    let spheres = [s];
    let beside = closest_intersection(&origin(), &Vec3::new(ONE, 0, 0), ONE, INFINITY, &spheres);
    assert_eq!(beside, Ok((None, INFINITY)));
    let behind = closest_intersection(&origin(), &Vec3::new(0, 0, -ONE), ONE, INFINITY, &spheres);
    assert_eq!(behind, Ok((None, INFINITY)));
    let none: [Sphere; 0] = [];
    let empty = closest_intersection(&origin(), &Vec3::new(0, 0, ONE), ONE, INFINITY, &none);
    assert_eq!(empty, Ok((None, INFINITY)));
}

#[test]
fn the_interval_includes_both_ends() {
    let s = sphere(Vec3::new(0, 0, 3 * ONE), ONE, 1);
    let spheres = [s];
    let d = Vec3::new(0, 0, ONE);
    let o = origin();
    let at = |t_min: i64, t_max: i64| closest_intersection(&o, &d, t_min, t_max, &spheres).map(|f| f.1);
    assert_eq!(at(2 * ONE, 2 * ONE), Ok(2 * ONE));
    assert_eq!(at(2 * ONE + 1, 4 * ONE), Ok(4 * ONE));
    assert_eq!(at(2 * ONE + 1, 4 * ONE - 1), Ok(INFINITY));
    assert_eq!(at(0, 2 * ONE - 1), Ok(INFINITY));
    assert_eq!(at(i64::MIN, INFINITY), Ok(2 * ONE));
    assert_eq!(at(4 * ONE, 2 * ONE), Ok(INFINITY));
}

#[test]
fn each_root_is_tested_on_its_own() {
    let s = sphere(Vec3::new(0, 0, 0), ONE, 1);
    let spheres = [s];
    let found = closest_intersection(&origin(), &Vec3::new(0, 0, ONE), 0, INFINITY, &spheres);
    assert_eq!(found, Ok((Some(&spheres[0]), ONE)));
    let both = closest_intersection(&origin(), &Vec3::new(0, 0, ONE), -2 * ONE, INFINITY, &spheres);
    assert_eq!(both, Ok((Some(&spheres[0]), -ONE)));
}

#[test]
fn of_two_spheres_at_the_same_parameter_the_first_counts() {
    let a = sphere(Vec3::new(0, 0, 3 * ONE), ONE, 1);
    let b = sphere(Vec3::new(0, 0, 3 * ONE), ONE, 2);
    let c = sphere(Vec3::new(0, 0, 6 * ONE), 2 * ONE, 3);
    let d = Vec3::new(0, 0, ONE);
    let ab = [a, b];
    let found = closest_intersection(&origin(), &d, ONE, INFINITY, &ab).unwrap();
    assert_eq!(found.0.map(|s| s.material.color.r), Some(1));
    let ba = [b, a];
    let found = closest_intersection(&origin(), &d, ONE, INFINITY, &ba).unwrap();
    assert_eq!(found.0.map(|s| s.material.color.r), Some(2));
    let ac = [a, c];
    let found = closest_intersection(&origin(), &d, 3 * ONE, INFINITY, &ac).unwrap();
    assert_eq!((found.0.map(|s| s.material.color.r), found.1), (Some(1), 4 * ONE));
    let ca = [c, a];
    let found = closest_intersection(&origin(), &d, 3 * ONE, INFINITY, &ca).unwrap();
    assert_eq!((found.0.map(|s| s.material.color.r), found.1), (Some(3), 4 * ONE));
}

#[test]
fn a_ray_from_inside_has_one_root_ahead_and_one_behind() {
    let s = sphere(Vec3::new(0, 0, 0), ONE, 1);
    let near_the_wall = Vec3::new(0, 0, ONE - 1);
    assert_eq!(intersect_ray_sphere(&near_the_wall, &Vec3::new(0, 0, ONE), &s), Ok((1, -65535)));
    assert_eq!(intersect_ray_sphere(&near_the_wall, &Vec3::new(0, 0, 2 * ONE), &s), Ok((0, -32768)));
    let opposite = Vec3::new(0, 0, 1 - ONE);
    assert_eq!(intersect_ray_sphere(&opposite, &Vec3::new(0, 0, 4 * ONE), &s), Ok((16383, -1)));
    let skew = intersect_ray_sphere(&Vec3::new(100, -200, 300), &Vec3::new(ONE, ONE, -ONE), &s);
    assert_eq!(skew, Ok((19051, -18785)));
}
