//! Utilities shared by the 64-bit architectures.

pub mod bits;
