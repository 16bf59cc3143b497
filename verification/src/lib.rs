//! Three-dimensional vectors over IEEE 754 binary64 numbers.
//!
//! A number is held by its bit pattern and all arithmetic is carried out on
//! integers, so every operation has a contract that says which number comes
//! out: the exact result, rounded to the nearest representable value with
//! ties going to the even neighbour.
//!
//! - `binary64`: the format, and the type `Double`;
//! - `rounding`: what it means to round an exact result;
//! - `powers`, `cells`: the integer arithmetic that rounds;
//! - `arith`, `order`, `convert`, `constants`: operations on numbers;
//! - `vector`, `geometry`: the type `Vec3` and its operations;
//! - `laws`, `accuracy`: what holds of all of them.

pub mod binary64;
pub mod powers;
pub mod rounding;
pub mod cells;
pub mod arith;
pub mod order;
pub mod convert;
pub mod constants;
pub mod vector;
pub mod geometry;
pub mod laws;
pub mod accuracy;

pub use crate::binary64::Double;
pub use crate::convert::Scalar;
pub use crate::geometry::{
    cross, dot, length, length_sq, lerp, normalize, on_unit_sphere, reflect, reflect_opt,
};
pub use crate::vector::Vec3;
