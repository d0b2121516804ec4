//! Kernel support utilities.

pub mod bits;
pub mod dtb;
pub mod range;
