//! Sphere tracing over signed-distance scenes, in fixed-point arithmetic.
//!
//! A scene is a list of shapes, each given by a signed distance estimate. A
//! ray is marched through it in steps as long as the smallest distance to any
//! shape, is followed from mirror to mirror, and ends at a dull surface,
//! beyond a distance cap, or for want of steps or bounces. A camera turns
//! image coordinates into rays, and a renderer shades four samples for each
//! pixel and puts an image together from horizontal slices.
//!
//! Every scalar is an `i64` that counts millionths, so the whole engine is
//! integer arithmetic with stated rounding, and every function says exactly
//! what it returns.

pub mod camera;
pub mod image;
pub mod rays;
pub mod render;
pub mod scalar;
pub mod shapes;
pub mod vector;
