//! ARMv7a architecture support.

pub mod bits;
pub mod mm;
pub mod task;
pub mod translate;
pub mod peripherals;
