use raytracer::color::Color;
use raytracer::fixed::ONE;
use raytracer::render::{render_pixel, Camera};
use raytracer::scene::{LightType, Scene};
use raytracer::vector::Vec3;

type V = (f64, f64, f64);

struct Ball {
    center: V,
    radius: f64,
    color: (f64, f64, f64),
    specular: Option<f64>,
    reflective: f64,
}

enum Lamp {
    Ambient(f64),
    Directional(V, f64),
    Point(V, f64),
}

fn unfix(s: i64) -> f64 {
    s as f64 / ONE as f64
}

fn float_vector(v: Vec3) -> V {
    (unfix(v.x), unfix(v.y), unfix(v.z))
}

fn dot(u: V, v: V) -> f64 {
    u.0 * v.0 + u.1 * v.1 + u.2 * v.2
}

fn sub(u: V, v: V) -> V {
    (u.0 - v.0, u.1 - v.1, u.2 - v.2)
}

fn add(u: V, v: V) -> V {
    (u.0 + v.0, u.1 + v.1, u.2 + v.2)
}

fn scale(u: V, t: f64) -> V {
    (u.0 * t, u.1 * t, u.2 * t)
}

fn length(u: V) -> f64 {
    dot(u, u).sqrt()
}

fn intersect(origin: V, direction: V, ball: &Ball) -> (f64, f64) {
    let co = sub(origin, ball.center);
    let a = dot(direction, direction);
    let b = 2.0 * dot(co, direction);
    let c = dot(co, co) - ball.radius * ball.radius;
    let discriminant = b * b - 4.0 * a * c;
    if discriminant < 0.0 {
        (f64::INFINITY, f64::INFINITY)
    } else {
        ((-b + discriminant.sqrt()) / (2.0 * a), (-b - discriminant.sqrt()) / (2.0 * a))
    }
}

fn closest<'a>(origin: V, direction: V, t_min: f64, t_max: f64, balls: &'a [Ball]) -> (Option<&'a Ball>, f64) {
    let mut closest_t = f64::INFINITY;
    let mut closest_ball = None;
    for ball in balls {
        let (t1, t2) = intersect(origin, direction, ball);
        if t1 >= t_min && t1 <= t_max && t1 < closest_t {
            closest_t = t1;
            closest_ball = Some(ball);
        }
        if t2 >= t_min && t2 <= t_max && t2 < closest_t {
            closest_t = t2;
            closest_ball = Some(ball);
        }
    }
    (closest_ball, closest_t)
}

fn lighting(point: V, normal: V, view: V, specular: Option<f64>, lamps: &[Lamp], balls: &[Ball]) -> f64 {
    let mut total = 0.0;
    for lamp in lamps {
        let (direction, t_max, intensity) = match lamp {
            Lamp::Ambient(i) => {
                total += i;
                continue;
            }
            Lamp::Point(position, i) => {
                let d = sub(*position, point);
                (d, length(d), *i)
            }
            Lamp::Directional(d, i) => (*d, f64::INFINITY, *i),
        };
        if closest(point, direction, 0.001, t_max, balls).0.is_some() {
            continue;
        }
        let n_dot_l = dot(normal, direction);
        if n_dot_l > 0.0 {
            total += intensity * n_dot_l / (length(normal) * length(direction));
            if let Some(s) = specular {
                let reflection = sub(scale(normal, 2.0 * n_dot_l), direction);
                let r_dot_v = dot(reflection, view);
                if r_dot_v > 0.0 {
                    total += intensity * (r_dot_v / (length(reflection) * length(view))).powf(s);
                }
            }
        }
    }
    total
}

fn shade(color: (f64, f64, f64), t: f64) -> (f64, f64, f64) {
    let channel = |c: f64| (c * t).min(255.0).max(0.0).floor();
    (channel(color.0), channel(color.1), channel(color.2))
}

fn trace(origin: V, direction: V, t_min: f64, t_max: f64, balls: &[Ball], lamps: &[Lamp], depth: u32) -> (f64, f64, f64) {
    let (ball, t) = match closest(origin, direction, t_min, t_max, balls) {
        (Some(ball), t) => (ball, t),
        (None, _) => return (0.0, 0.0, 0.0),
    };
    let point = add(origin, scale(direction, t));
    let outward = sub(point, ball.center);
    let normal = scale(outward, 1.0 / length(outward));
    let view = scale(direction, -1.0);
    let local = shade(ball.color, lighting(point, normal, view, ball.specular, lamps, balls));
    if depth == 0 || ball.reflective <= 0.0 {
        return local;
    }
    let mirrored = sub(scale(normal, 2.0 * dot(normal, view)), view);
    let reflected = trace(point, mirrored, 0.001, f64::INFINITY, balls, lamps, depth - 1);
    let near = shade(local, 1.0 - ball.reflective);
    let far = shade(reflected, ball.reflective);
    ((near.0 + far.0).min(255.0), (near.1 + far.1).min(255.0), (near.2 + far.2).min(255.0))
}

fn float_scene(scene: &Scene) -> (Vec<Ball>, Vec<Lamp>) {
    let balls = scene
        .spheres
        .iter()
        .map(|s| Ball {
            center: float_vector(s.center),
            radius: unfix(s.radius),
            color: (s.material.color.r as f64, s.material.color.g as f64, s.material.color.b as f64),
            specular: s.material.specular.map(|e| e as f64),
            reflective: s.material.reflective.map(unfix).unwrap_or(0.0),
        })
        .collect();
    let lamps = scene
        .lights
        .iter()
        .map(|l| match l.light_type {
            LightType::Ambient => Lamp::Ambient(unfix(l.intensity)),
            LightType::Directional { direction } => Lamp::Directional(float_vector(direction), unfix(l.intensity)),
            LightType::Point { position } => Lamp::Point(float_vector(position), unfix(l.intensity)),
        })
        .collect();
    (balls, lamps)
}

fn far_apart(scene: &Scene) -> (usize, usize) {
    let camera = Camera::basic_camera();
    let (balls, lamps) = float_scene(scene);
    let mut compared = 0;
    let mut apart = 0;
    let mut y = 0;
    while y < camera.canvas_height {
        let mut x = 0;
        while x < camera.canvas_width {
            let fixed: Color = render_pixel(&camera, scene, x, y).unwrap();
            let direction = (
                (x as f64 - 200.0) / 400.0,
                -(y as f64 - 200.0) / 400.0,
                1.0,
            );
            let float = trace((0.0, 0.0, 0.0), direction, 1.0, f64::INFINITY, &balls, &lamps, camera.recursion_depth);
            let gap = (fixed.r as f64 - float.0)
                .abs()
                .max((fixed.g as f64 - float.1).abs())
                .max((fixed.b as f64 - float.2).abs());
            compared += 1;
            if gap > 3.0 {
                apart += 1;
            }
            x += 7;
        }
        y += 7;
    }
    (compared, apart)
}

#[test]
fn the_default_scene_agrees_with_floating_point_arithmetic() {
    let (compared, apart) = far_apart(&Scene::basic_scene());
    assert_eq!(compared, 58 * 58);
    assert!(apart * 200 <= compared);
}

#[test]
fn the_mirrored_scene_agrees_with_floating_point_arithmetic() {
    let mut scene = Scene::basic_scene();
    let shares: [i64; 4] = [6553, 9830, 13107, 16384];
    for (sphere, share) in scene.spheres.iter_mut().zip(shares) {
        sphere.material.reflective = Some(share);
    }
    let (compared, apart) = far_apart(&scene);
    assert_eq!(compared, 58 * 58);
    assert!(apart * 200 <= compared);
}
