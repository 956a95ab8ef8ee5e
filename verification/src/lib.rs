//! PROMETHEE multi-criteria ranking over exact fixed-point numbers.
//!
//! Values are `Fixed` numbers with twelve decimal places; every operation of
//! the ranking is stated over the integers that those numbers stand for.

pub mod fixed;
pub mod function;
pub mod promethee;
pub mod vanilla;
pub mod laws;
