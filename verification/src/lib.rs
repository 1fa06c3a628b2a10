//! A spherical-geometry kernel: points on the unit sphere viewed through a
//! quaternion orientation, parametric circle and arc generators, a
//! front/back hemisphere path splitter, snapping, selection and grouping
//! state, and spherical trigonometry.
//!
//! All coordinates are fixed-point: an `i64` counts units of `1/SCALE`, so
//! the real value `x` is stored as `x * SCALE` rounded to the nearest unit.
//! Angles are stored in microdegrees. Every executable function carries a
//! contract stated over the spec-level rounded arithmetic: the result is
//! pinned exactly as a function of the inputs.

pub mod event;
pub mod fixed;
pub mod trig;
pub mod quaternion;
pub mod splitter;
pub mod state;
pub mod circle;
pub mod point;
pub mod vec3;
