//! The camera, and the colour of each pixel of its canvas.

use vstd::prelude::*;
use crate::color::Color;
use crate::error::TraceError;
use crate::fixed::{lemma_div_exact, lemma_div_le, INFINITY, ONE, RAY_MAX, WORLD_MAX};
use crate::geometry::{canvas_to_viewport, viewport_direction};
use crate::scene::{
    default_lights, default_spheres, spheres_wf, Light, LightType, Scene, Sphere,
};
use crate::tracer::{trace_as, traced_as, Shading};
use crate::tracer_proofs::{
    lemma_light_shading_succeeds, lemma_mirrored_floor, lemma_mirrored_reach,
    lemma_tracing_succeeds, light_is_clear, mirrored_floor, mirrored_reach, scene_is_clear,
};
use crate::vector::{lemma_largest, Vec3, V3};

verus! {

/// A pinhole camera that looks along the z axis, with its canvas.
#[derive(Clone, Copy, Debug, PartialEq, Eq, Structural)]
pub struct Camera {
    /// Where the camera stands.
    pub origin: Vec3,
    /// Width of the canvas in pixels.
    pub canvas_width: u32,
    /// Height of the canvas in pixels.
    pub canvas_height: u32,
    /// Width and height of the viewport, a scalar.
    pub viewport_size: i64,
    /// Distance from the camera to the viewport, a scalar.
    pub projection_plane_distance: i64,
    /// Number of mirror bounces that a primary ray may spawn.
    pub recursion_depth: u32,
    /// The colour of a ray that meets nothing.
    pub background: Color,
    /// How much of the lighting the pixels are traced with.
    pub shading: Shading,
}

impl Camera {
    /// The camera stands in the world, its canvas has pixels, and its
    /// viewport is of a size and at a distance that a ray can span.
    pub open spec fn wf(&self) -> bool {
        &&& self.origin@.within(WORLD_MAX as int)
        &&& self.canvas_width > 0
        &&& self.canvas_height > 0
        &&& 0 < self.viewport_size <= RAY_MAX
        &&& 0 < self.projection_plane_distance <= RAY_MAX
    }

    /// Tells whether the camera is well formed.
    pub fn is_well_formed(&self) -> (b: bool)
        ensures
            b == self.wf(),
    {
        self.origin.is_within(WORLD_MAX) && self.canvas_width > 0 && self.canvas_height > 0 && 0
            < self.viewport_size && self.viewport_size <= RAY_MAX && 0
            < self.projection_plane_distance && self.projection_plane_distance <= RAY_MAX
    }

    /// The camera at the origin with a canvas of 400 by 400 pixels, a
    /// viewport of size 1 at distance 1, the full shading with three
    /// bounces and a black background.
    pub fn basic_camera() -> (camera: Camera)
        ensures
            camera.wf(),
            camera == (Camera {
                origin: Vec3 { x: 0, y: 0, z: 0 },
                canvas_width: crate::config::CANVAS_WIDTH,
                canvas_height: crate::config::CANVAS_HEIGHT,
                viewport_size: crate::config::VIEWPORT_SIZE,
                projection_plane_distance: crate::config::PROJECTION_PLANE_D,
                recursion_depth: crate::config::RECURSION_DEPTH,
                background: Color { r: 0, g: 0, b: 0 },
                shading: Shading::Full,
            }),
    {
        Camera {
            origin: Vec3::new(0, 0, 0),
            canvas_width: crate::config::CANVAS_WIDTH,
            canvas_height: crate::config::CANVAS_HEIGHT,
            viewport_size: crate::config::VIEWPORT_SIZE,
            projection_plane_distance: crate::config::PROJECTION_PLANE_D,
            recursion_depth: crate::config::RECURSION_DEPTH,
            background: Color::new(0, 0, 0),
            shading: Shading::Full,
        }
    }
}

/// The direction of the primary ray through the pixel in column `x` and
/// row `y` of the canvas, both counted from the top left corner.
pub open spec fn pixel_direction(camera: Camera, x: int, y: int) -> V3 {
    viewport_direction(
        x - camera.canvas_width / 2,
        y - camera.canvas_height / 2,
        camera.canvas_width as int,
        camera.canvas_height as int,
        camera.viewport_size as int,
        camera.projection_plane_distance as int,
    )
}

/// The colour of the pixel in column `x` and row `y`: what the primary ray
/// through it sees from the parameter one onwards, under the shading of
/// the camera.
pub open spec fn pixel_color(
    camera: Camera,
    spheres: Seq<Sphere>,
    lights: Seq<Light>,
    x: int,
    y: int,
) -> Result<Color, TraceError> {
    traced_as(
        camera.shading,
        camera.origin@,
        pixel_direction(camera, x, y),
        ONE as int,
        INFINITY as int,
        spheres,
        lights,
        camera.recursion_depth as nat,
        camera.background,
    )
}

/// A pixel offset of at most `width` in magnitude gives a viewport
/// coordinate of at most `size` in magnitude.
pub proof fn lemma_viewport_coordinate(offset: int, size: int, width: int)
    requires
        width > 0,
        size >= 0,
        -width <= offset <= width,
    ensures
        -size <= offset * size / width <= size,
{
    assert(-(size * width) <= offset * size <= size * width) by (nonlinear_arith)
        requires
            size >= 0,
            -width <= offset <= width,
    ;
    lemma_div_le(offset * size, size * width, width);
    lemma_div_le(-(size * width), offset * size, width);
    lemma_div_exact(size, width);
    lemma_div_exact(-size, width);
    assert((-size) * width == -(size * width)) by (nonlinear_arith);
}

/// The largest component that the direction of a primary ray of the
/// camera can have.
pub open spec fn primary_reach(camera: Camera) -> int {
    if camera.viewport_size >= camera.projection_plane_distance {
        camera.viewport_size as int
    } else {
        camera.projection_plane_distance as int
    }
}

/// The scene is clear for every ray that the camera can trace: the
/// directions stay within what a ray can have and do not shrink to
/// nothing, and the scene is clear for them.
pub open spec fn camera_is_clear(camera: Camera, spheres: Seq<Sphere>, lights: Seq<Light>) -> bool {
    &&& mirrored_floor(camera.projection_plane_distance as int, camera.recursion_depth as nat) >= 2
    &&& mirrored_reach(primary_reach(camera), camera.recursion_depth as nat) <= RAY_MAX
    &&& scene_is_clear(
        spheres,
        lights,
        mirrored_reach(primary_reach(camera), camera.recursion_depth as nat),
    )
}

/// Every pixel of a camera gets a colour where the scene is clear for the
/// camera.
pub proof fn lemma_pixel_succeeds(
    camera: Camera,
    spheres: Seq<Sphere>,
    lights: Seq<Light>,
    x: int,
    y: int,
)
    requires
        camera.wf(),
        spheres_wf(spheres),
        camera_is_clear(camera, spheres, lights),
        0 <= x < camera.canvas_width,
        0 <= y < camera.canvas_height,
    ensures
        pixel_color(camera, spheres, lights, x, y) is Ok,
{
    let direction = pixel_direction(camera, x, y);
    lemma_viewport_coordinate(
        x - camera.canvas_width / 2,
        camera.viewport_size as int,
        camera.canvas_width as int,
    );
    lemma_viewport_coordinate(
        -(y - camera.canvas_height / 2),
        camera.viewport_size as int,
        camera.canvas_height as int,
    );
    lemma_largest(direction);
    if camera.shading is Full {
        lemma_tracing_succeeds(
            camera.origin@,
            direction,
            ONE as int,
            INFINITY as int,
            spheres,
            lights,
            camera.recursion_depth as nat,
            camera.background,
            primary_reach(camera),
            camera.projection_plane_distance as int,
        );
    } else {
        lemma_mirrored_floor(
            camera.projection_plane_distance as int,
            camera.recursion_depth as nat,
        );
        lemma_mirrored_reach(primary_reach(camera), camera.recursion_depth as nat);
        lemma_light_shading_succeeds(
            camera.shading,
            camera.origin@,
            direction,
            ONE as int,
            INFINITY as int,
            spheres,
            lights,
            camera.recursion_depth as nat,
            camera.background,
            primary_reach(camera),
            mirrored_reach(primary_reach(camera), camera.recursion_depth as nat),
        );
    }
}

/// The default scene is clear for the default camera, and stays so
/// whatever its spheres mirror.
pub proof fn lemma_default_scene_is_clear(camera: Camera, spheres: Seq<Sphere>)
    requires
        camera.viewport_size == crate::config::VIEWPORT_SIZE,
        camera.projection_plane_distance == crate::config::PROJECTION_PLANE_D,
        camera.recursion_depth <= 3,
        spheres.len() == default_spheres().len(),
        forall|j: int|
            0 <= j < spheres.len() ==> (#[trigger] spheres[j]).center == default_spheres()[j].center
                && spheres[j].radius == default_spheres()[j].radius,
    ensures
        camera_is_clear(camera, spheres, default_lights()),
{
    reveal_with_fuel(mirrored_reach, 4);
    reveal_with_fuel(mirrored_floor, 4);
    let reach = mirrored_reach(primary_reach(camera), camera.recursion_depth as nat);
    assert(reach <= 343 * ONE);
    assert(2 * reach / (ONE as int) <= 686 && 4 * reach / (ONE as int) <= 1372) by (nonlinear_arith)
        requires
            0 <= reach <= 343 * 32768,
            ONE == 32768,
    ;
    let lights = default_lights();
    assert(spheres[0].center == default_spheres()[0].center);
    assert(spheres[1].center == default_spheres()[1].center);
    assert(spheres[2].center == default_spheres()[2].center);
    assert(spheres[3].center == default_spheres()[3].center);
    assert forall|i: int| 0 <= i < lights.len() implies light_is_clear(
        #[trigger] lights[i],
        spheres,
        reach,
    ) by {
        if i == 2 {
            assert forall|j: int| 0 <= j < spheres.len() implies !lights[2].light_type->position@.minus(
                (#[trigger] spheres[j]).center@,
            ).within(spheres[j].radius + 2 * reach / (ONE as int) + 3) by {
                assert(j == 0 || j == 1 || j == 2 || j == 3);
            }
        }
    }
}

fn reach_after(m: i64, depth: u32) -> (reach: Option<i64>)
    requires
        1 <= m <= RAY_MAX,
    ensures
        match reach {
            Some(r) => r == mirrored_reach(m as int, depth as nat) && 1 <= r <= RAY_MAX,
            None => mirrored_reach(m as int, depth as nat) > RAY_MAX,
        },
{
    let mut current: i64 = m;
    let mut bounces: u32 = 0;
    while bounces < depth && current <= RAY_MAX
        invariant
            bounces <= depth,
            1 <= current <= 7 * RAY_MAX,
            mirrored_reach(m as int, depth as nat) == mirrored_reach(
                current as int,
                (depth - bounces) as nat,
            ),
        decreases depth - bounces,
    {
        current = 7 * current;
        bounces = bounces + 1;
    }
    if current > RAY_MAX {
        proof {
            lemma_mirrored_reach(current as int, (depth - bounces) as nat);
        }
        None
    } else {
        Some(current)
    }
}

fn floor_after(lo: i64, depth: u32) -> (floor: i64)
    requires
        0 <= lo,
    ensures
        floor == mirrored_floor(lo as int, depth as nat),
{
    let mut current: i64 = lo;
    let mut bounces: u32 = 0;
    while bounces < depth && current > 0
        invariant
            bounces <= depth,
            0 <= current,
            mirrored_floor(lo as int, depth as nat) == mirrored_floor(
                current as int,
                (depth - bounces) as nat,
            ),
        decreases depth - bounces,
    {
        current = current / 2;
        bounces = bounces + 1;
    }
    proof {
        lemma_mirrored_floor(current as int, (depth - bounces) as nat);
    }
    current
}

#[verifier::loop_isolation(false)]
fn light_stands_clear(light: &Light, spheres: &[Sphere], reach: i64) -> (b: bool)
    requires
        light.wf(),
        spheres_wf(spheres@),
        0 <= reach <= RAY_MAX,
    ensures
        b == light_is_clear(*light, spheres@, reach as int),
{
    match &light.light_type {
        LightType::Ambient => true,
        LightType::Directional { direction } => !direction.is_zero(),
        LightType::Point { position } => {
            let apart: i64 = 2 * reach / ONE + 3;
            let mut j: usize = 0;
            while j < spheres.len()
                invariant
                    0 <= j <= spheres.len(),
                    spheres_wf(spheres@),
                    position@.within(WORLD_MAX as int),
                    0 <= reach <= RAY_MAX,
                    apart == 2 * reach / (ONE as int) + 3,
                    forall|k: int|
                        0 <= k < j ==> !position@.minus((#[trigger] spheres@[k]).center@).within(
                            spheres@[k].radius + apart,
                        ),
                decreases spheres.len() - j,
            {
                let sphere: &Sphere = &spheres[j];
                assert(sphere.wf());
                if position.sub(&sphere.center).is_within(sphere.radius + apart) {
                    assert(position@.minus(spheres@[j as int].center@).within(
                        spheres@[j as int].radius + apart,
                    ));
                    return false;
                }
                j = j + 1;
            }
            true
        },
    }
}

/// Tells whether the scene is clear for the camera. Where it is, every
/// pixel of the camera gets a colour.
#[verifier::loop_isolation(false)]
pub fn is_clear(camera: &Camera, scene: &Scene) -> (b: bool)
    requires
        camera.wf(),
        scene.wf(),
    ensures
        b == camera_is_clear(*camera, scene.spheres@, scene.lights@),
{
    if floor_after(camera.projection_plane_distance, camera.recursion_depth) < 2 {
        return false;
    }
    let primary: i64 = if camera.viewport_size >= camera.projection_plane_distance {
        camera.viewport_size
    } else {
        camera.projection_plane_distance
    };
    let reach: i64 = match reach_after(primary, camera.recursion_depth) {
        None => {
            return false;
        },
        Some(reach) => reach,
    };
    let smallest: i64 = 4 * reach / ONE + 4;
    let mut j: usize = 0;
    while j < scene.spheres.len()
        invariant
            0 <= j <= scene.spheres.len(),
            smallest == 4 * reach / (ONE as int) + 4,
            forall|k: int| 0 <= k < j ==> (#[trigger] scene.spheres@[k]).radius >= smallest,
        decreases scene.spheres.len() - j,
    {
        if scene.spheres[j].radius < smallest {
            assert(scene.spheres@[j as int].radius < smallest);
            return false;
        }
        j = j + 1;
    }
    let mut i: usize = 0;
    while i < scene.lights.len()
        invariant
            0 <= i <= scene.lights.len(),
            scene.wf(),
            0 <= reach <= RAY_MAX,
            forall|k: int|
                0 <= k < i ==> light_is_clear(#[trigger] scene.lights@[k], scene.spheres@, reach as int),
        decreases scene.lights.len() - i,
    {
        assert(scene.lights@[i as int].wf());
        if !light_stands_clear(&scene.lights[i], scene.spheres.as_slice(), reach) {
            assert(!light_is_clear(scene.lights@[i as int], scene.spheres@, reach as int));
            return false;
        }
        i = i + 1;
    }
    true
}

/// The colour of the pixel in column `x` and row `y` of the canvas.
pub fn render_pixel(camera: &Camera, scene: &Scene, x: u32, y: u32) -> (color: Result<
    Color,
    TraceError,
>)
    requires
        camera.wf(),
        scene.wf(),
        x < camera.canvas_width,
        y < camera.canvas_height,
    ensures
        color == pixel_color(*camera, scene.spheres@, scene.lights@, x as int, y as int),
        camera_is_clear(*camera, scene.spheres@, scene.lights@) ==> color is Ok,
{
    proof {
        if camera_is_clear(*camera, scene.spheres@, scene.lights@) {
            lemma_pixel_succeeds(*camera, scene.spheres@, scene.lights@, x as int, y as int);
        }
    }
    let px: i64 = x as i64 - (camera.canvas_width / 2) as i64;
    let py: i64 = y as i64 - (camera.canvas_height / 2) as i64;
    proof {
        lemma_viewport_coordinate(
            px as int,
            camera.viewport_size as int,
            camera.canvas_width as int,
        );
        lemma_viewport_coordinate(
            -(py as int),
            camera.viewport_size as int,
            camera.canvas_height as int,
        );
    }
    let direction: Vec3 = canvas_to_viewport(
        px as i32,
        py as i32,
        camera.canvas_width,
        camera.canvas_height,
        camera.viewport_size,
        camera.projection_plane_distance,
    );
    trace_as(
        camera.shading,
        &camera.origin,
        &direction,
        ONE,
        INFINITY,
        scene.spheres.as_slice(),
        scene.lights.as_slice(),
        camera.recursion_depth,
        camera.background,
    )
}

} // verus!
