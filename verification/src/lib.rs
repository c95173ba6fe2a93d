//! A ray tracer for scenes of spheres and lights.
//!
//! One ray for each pixel leaves a pinhole camera; its colour is the local
//! illumination of the closest sphere (ambient, diffuse and specular light
//! behind a shadow test), blended with what a bounded number of mirror
//! bounces show.
//!
//! All arithmetic is exact integer arithmetic on fixed-point scalars (see
//! [`fixed`]); roundings are floor roundings, and each contract states the
//! rounded result exactly. What the roundings keep of the geometry is
//! proved in [`geometry_proofs`] and [`tracer_proofs`].
//!
//! - [`fixed`]: scalars, floor division, square root and powers
//! - [`vector`], [`color`]: vectors and colours
//! - [`scene`]: spheres, materials and lights, and the default scene
//! - [`geometry`]: viewport projection, ray and sphere, closest hit
//! - [`shading`]: the light at a point
//! - [`tracer`]: the colour that a ray sees, in full or in a lighter shading
//! - [`render`], [`canvas`]: the camera, its pixels and the whole picture

pub mod algebra;
pub mod canvas;
pub mod color;
pub mod config;
pub mod error;
pub mod fixed;
pub mod geometry;
pub mod geometry_proofs;
pub mod render;
pub mod scene;
pub mod shading;
pub mod tracer;
pub mod tracer_proofs;
pub mod vector;
