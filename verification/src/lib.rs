//! Euclidean rhythms: binary onset/rest patterns that spread a number of
//! pulses as evenly as possible over a number of steps, and their cyclic
//! rotations.
//!
//! A rhythm is a sequence of booleans, `true` for an onset and `false` for a
//! rest; index 0 is the nominal first beat.

pub mod generator;
pub mod render;
pub mod rhythm;
pub mod rotation;
