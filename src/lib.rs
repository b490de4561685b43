//! Radar coverage over terrain: terrain tiles, per-radar horizon maps,
//! per-tile coverage rasters and the caches and scheduling around them.
//!
//! Angles travel through the library as IEEE-754 single-precision bit
//! patterns (`f32::to_bits`); the library orders them exactly as `f32`
//! comparisons do, and all trigonometry happens in the caller.
pub mod angle;
pub mod cache;
pub mod viewshed;
pub mod terrain;
pub mod coverage;
pub mod scheduler;
pub mod target;
