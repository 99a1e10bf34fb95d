//! Geometric core of a surface-triangulation pipeline.
//!
//! The crate has two parts:
//!
//! * [`hull`] — an incremental frontier structure: a circular, bucket-indexed,
//!   doubly linked ordering of points by angle around a triangulation center.
//!   The triangulation driver feeds points in one at a time; the hull answers,
//!   for each new point, which boundary edge the point must split.
//! * [`surface`] — the per-kind classification of the CAD primitives
//!   (plane, cylinder, sphere, free-form patch) whose charts the driver
//!   triangulates, with the winding-correction flag each kind requires.
//!
//! Point and half-edge records are owned elsewhere; this crate stores and
//! compares only their integer handles.

pub mod hull;
pub mod surface;
