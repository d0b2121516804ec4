//! Architecture support.

pub mod aarch64;
pub mod arm;
pub mod armv7;
pub mod common64;
