//! The exact core of a path tracer: fixed-point colour and its gamma
//! quantisation, the material model, nearest-hit selection, the radiance
//! estimator's bounce rules, and the partition of the image into render
//! batches. Geometry in floating point is supplied by the caller through
//! callbacks and plain values.
pub mod color;
pub mod objects;
pub mod ray;
pub mod render;
