//! The scene: spheres with their materials, and lights.

use vstd::prelude::*;
use crate::color::Color;
use crate::fixed::{INTENSITY_MAX, MAX_LIGHTS, ONE, RAY_MAX, SURFACE_MARGIN, WORLD_MAX};
use crate::vector::Vec3;

verus! {

/// How a surface answers light.
#[derive(Clone, Copy, Debug, PartialEq, Eq, Structural)]
pub struct Material {
    pub color: Color,
    /// Exponent of the highlight; `None` for a matte surface.
    pub specular: Option<u32>,
    /// Share of the mirrored colour, a scalar from 0 to `ONE`; `None` for a
    /// surface that mirrors nothing.
    pub reflective: Option<i64>,
}

/// A sphere: its centre, its radius as a scalar, and its material.
#[derive(Clone, Copy, Debug, PartialEq, Eq, Structural)]
pub struct Sphere {
    pub center: Vec3,
    pub radius: i64,
    pub material: Material,
}

/// The three kinds of light.
#[derive(Clone, Copy, Debug, PartialEq, Eq, Structural)]
pub enum LightType {
    /// Light that reaches every point from everywhere.
    Ambient,
    /// `direction` points towards the light; its length is free.
    Directional { direction: Vec3 },
    /// Light from a place in the world.
    Point { position: Vec3 },
}

/// A light: its kind, its intensity as a scalar, and its colour. The
/// colour does not enter the lighting.
#[derive(Clone, Copy, Debug, PartialEq, Eq, Structural)]
pub struct Light {
    pub light_type: LightType,
    pub intensity: i64,
    pub color: Color,
}

/// The spheres and the lights, each in a fixed order.
pub struct Scene {
    pub spheres: Vec<Sphere>,
    pub lights: Vec<Light>,
}

impl Material {
    /// The share of the mirrored colour lies between 0 and `ONE`.
    pub open spec fn wf(&self) -> bool {
        self.reflective matches Some(r) ==> 0 <= r <= ONE
    }

    /// Tells whether the material is well formed.
    pub fn is_well_formed(&self) -> (b: bool)
        ensures
            b == self.wf(),
    {
        match self.reflective {
            Some(r) => 0 <= r && r <= ONE,
            None => true,
        }
    }

    /// The share of the mirrored colour, 0 where none is given.
    pub open spec fn reflectivity(&self) -> int {
        match self.reflective {
            Some(r) => r as int,
            None => 0,
        }
    }
}

impl Sphere {
    /// The sphere has a positive radius and lies in the world as a whole,
    /// with `SURFACE_MARGIN` to spare on every side.
    pub open spec fn wf(&self) -> bool {
        &&& 0 < self.radius
        &&& self.radius + SURFACE_MARGIN <= WORLD_MAX
        &&& self.center@.within(WORLD_MAX - SURFACE_MARGIN - self.radius)
        &&& self.material.wf()
    }
}

impl Sphere {
    /// Tells whether the sphere is well formed.
    pub fn is_well_formed(&self) -> (b: bool)
        ensures
            b == self.wf(),
    {
        0 < self.radius && self.radius <= WORLD_MAX - SURFACE_MARGIN && self.center.is_within(
            WORLD_MAX - SURFACE_MARGIN - self.radius,
        ) && self.material.is_well_formed()
    }
}

impl Light {
    /// Tells whether the light is well formed.
    pub fn is_well_formed(&self) -> (b: bool)
        ensures
            b == self.wf(),
    {
        0 <= self.intensity && self.intensity <= INTENSITY_MAX && match &self.light_type {
            LightType::Ambient => true,
            LightType::Directional { direction } => direction.is_within(RAY_MAX),
            LightType::Point { position } => position.is_within(WORLD_MAX),
        }
    }

    /// The intensity is a scalar from 0 to `INTENSITY_MAX`, a position lies
    /// in the world and a direction is no longer than a ray's may be.
    pub open spec fn wf(&self) -> bool {
        &&& 0 <= self.intensity <= INTENSITY_MAX
        &&& match self.light_type {
            LightType::Ambient => true,
            LightType::Directional { direction } => direction@.within(RAY_MAX as int),
            LightType::Point { position } => position@.within(WORLD_MAX as int),
        }
    }

    /// An ambient light.
    pub fn new_ambient(intensity: i64, color: Color) -> (light: Light)
        ensures
            light == (Light { light_type: LightType::Ambient, intensity, color }),
    {
        Light { light_type: LightType::Ambient, intensity, color }
    }

    /// A directional light; `direction` points towards it.
    pub fn new_directional(direction: Vec3, intensity: i64, color: Color) -> (light: Light)
        ensures
            light == (Light { light_type: LightType::Directional { direction }, intensity, color }),
    {
        Light { light_type: LightType::Directional { direction }, intensity, color }
    }

    /// A point light at `position`.
    pub fn new_point(position: Vec3, intensity: i64, color: Color) -> (light: Light)
        ensures
            light == (Light { light_type: LightType::Point { position }, intensity, color }),
    {
        Light { light_type: LightType::Point { position }, intensity, color }
    }
}

/// Every sphere of the sequence is well formed.
pub open spec fn spheres_wf(spheres: Seq<Sphere>) -> bool {
    forall|i: int| 0 <= i < spheres.len() ==> (#[trigger] spheres[i]).wf()
}

/// Every light of the sequence is well formed, and they are not too many.
pub open spec fn lights_wf(lights: Seq<Light>) -> bool {
    &&& lights.len() <= MAX_LIGHTS
    &&& forall|i: int| 0 <= i < lights.len() ==> (#[trigger] lights[i]).wf()
}

/// Tells whether every sphere is well formed.
pub fn spheres_are_well_formed(spheres: &[Sphere]) -> (b: bool)
    ensures
        b == spheres_wf(spheres@),
{
    let mut i: usize = 0;
    while i < spheres.len()
        invariant
            0 <= i <= spheres.len(),
            forall|j: int| 0 <= j < i ==> (#[trigger] spheres@[j]).wf(),
        decreases spheres.len() - i,
    {
        if !spheres[i].is_well_formed() {
            return false;
        }
        i = i + 1;
    }
    true
}

/// Tells whether every light is well formed and they are not too many.
pub fn lights_are_well_formed(lights: &[Light]) -> (b: bool)
    ensures
        b == lights_wf(lights@),
{
    if lights.len() > MAX_LIGHTS {
        return false;
    }
    let mut i: usize = 0;
    while i < lights.len()
        invariant
            0 <= i <= lights.len(),
            lights.len() <= MAX_LIGHTS,
            forall|j: int| 0 <= j < i ==> (#[trigger] lights@[j]).wf(),
        decreases lights.len() - i,
    {
        if !lights[i].is_well_formed() {
            return false;
        }
        i = i + 1;
    }
    true
}

/// The four spheres of the default scene: a red, a blue and a green one of
/// radius 1, and a yellow one of radius 5000 as the ground. None mirrors.
pub open spec fn default_spheres() -> Seq<Sphere> {
    seq![
        Sphere {
            center: Vec3 { x: 0, y: (-ONE) as i64, z: (3 * ONE) as i64 },
            radius: ONE,
            material: Material {
                color: Color { r: 255, g: 0, b: 0 },
                specular: Some(500u32),
                reflective: None,
            },
        },
        Sphere {
            center: Vec3 { x: (2 * ONE) as i64, y: 0, z: (4 * ONE) as i64 },
            radius: ONE,
            material: Material {
                color: Color { r: 0, g: 0, b: 255 },
                specular: Some(500u32),
                reflective: None,
            },
        },
        Sphere {
            center: Vec3 { x: (-2 * ONE) as i64, y: 0, z: (4 * ONE) as i64 },
            radius: ONE,
            material: Material {
                color: Color { r: 0, g: 255, b: 0 },
                specular: Some(10u32),
                reflective: None,
            },
        },
        Sphere {
            center: Vec3 { x: 0, y: (-5001 * ONE) as i64, z: 0 },
            radius: (5000 * ONE) as i64,
            material: Material {
                color: Color { r: 255, g: 255, b: 0 },
                specular: Some(1000u32),
                reflective: None,
            },
        },
    ]
}

/// The three lights of the default scene, all white: an ambient light of
/// intensity 0.2, a directional light of 0.2 from the direction (1, 4, 4)
/// and a point light of 0.6 at (2, 1, 0). The intensities are rounded down.
pub open spec fn default_lights() -> Seq<Light> {
    seq![
        Light {
            light_type: LightType::Ambient,
            intensity: (ONE / 5) as i64,
            color: Color { r: 255, g: 255, b: 255 },
        },
        Light {
            light_type: LightType::Directional {
                direction: Vec3 { x: ONE, y: (4 * ONE) as i64, z: (4 * ONE) as i64 },
            },
            intensity: (ONE / 5) as i64,
            color: Color { r: 255, g: 255, b: 255 },
        },
        Light {
            light_type: LightType::Point { position: Vec3 { x: (2 * ONE) as i64, y: ONE, z: 0 } },
            intensity: (3 * ONE / 5) as i64,
            color: Color { r: 255, g: 255, b: 255 },
        },
    ]
}

fn default_sphere(x: i64, y: i64, z: i64, radius: i64, color: Color, exponent: u32) -> (sphere: Sphere)
    ensures
        sphere == (Sphere {
            center: Vec3 { x, y, z },
            radius,
            material: Material { color, specular: Some(exponent), reflective: None },
        }),
{
    Sphere {
        center: Vec3::new(x, y, z),
        radius,
        material: Material { color, specular: Some(exponent), reflective: None },
    }
}

/// The spheres of the default scene.
pub fn generate_default_spheres() -> (spheres: Vec<Sphere>)
    ensures
        spheres@ == default_spheres(),
        spheres_wf(spheres@),
{
    let mut spheres: Vec<Sphere> = Vec::new();
    spheres.push(default_sphere(0, -ONE, 3 * ONE, ONE, Color::new(255, 0, 0), 500));
    spheres.push(default_sphere(2 * ONE, 0, 4 * ONE, ONE, Color::new(0, 0, 255), 500));
    spheres.push(default_sphere(-2 * ONE, 0, 4 * ONE, ONE, Color::new(0, 255, 0), 10));
    spheres.push(default_sphere(0, -5001 * ONE, 0, 5000 * ONE, Color::new(255, 255, 0), 1000));
    assert(spheres@ =~= default_spheres());
    spheres
}

/// The lights of the default scene.
pub fn generate_default_lights() -> (lights: Vec<Light>)
    ensures
        lights@ == default_lights(),
        lights_wf(lights@),
{
    let white: Color = Color::new(255, 255, 255);
    let mut lights: Vec<Light> = Vec::new();
    lights.push(Light::new_ambient(ONE / 5, white));
    lights.push(Light::new_directional(Vec3::new(ONE, 4 * ONE, 4 * ONE), ONE / 5, white));
    lights.push(Light::new_point(Vec3::new(2 * ONE, ONE, 0), 3 * ONE / 5, white));
    assert(lights@ =~= default_lights());
    lights
}

impl Scene {
    /// Spheres and lights are well formed.
    pub open spec fn wf(&self) -> bool {
        spheres_wf(self.spheres@) && lights_wf(self.lights@)
    }

    /// Tells whether spheres and lights are well formed.
    pub fn is_well_formed(&self) -> (b: bool)
        ensures
            b == self.wf(),
    {
        spheres_are_well_formed(self.spheres.as_slice()) && lights_are_well_formed(
            self.lights.as_slice(),
        )
    }

    /// The default scene.
    pub fn basic_scene() -> (scene: Scene)
        ensures
            scene.spheres@ == default_spheres(),
            scene.lights@ == default_lights(),
            scene.wf(),
    {
        Scene { spheres: generate_default_spheres(), lights: generate_default_lights() }
    }
}

} // verus!
