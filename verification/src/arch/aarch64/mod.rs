//! AArch64 architecture support.

pub mod bits;
pub mod mm;
pub mod pages;
pub mod peripherals;
pub mod stacks;
pub mod tables;
pub mod task;
pub mod translate;
