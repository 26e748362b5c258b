//! A decaying two-dimensional heat field with a circular, distance-weighted brush.
//!
//! The field cools by one unit on every update and, where the brush is applied,
//! takes heat that falls off linearly with the distance from the brush's centre.
//! All arithmetic is exact on integers.

pub mod matrix;
pub mod remap;
pub mod brush;
pub mod heat_map;

pub use brush::brush_contribution;
pub use heat_map::{ConfigurationError, HeatMap, HeatPoint};
pub use remap::{constrain, remap, RemapError};
