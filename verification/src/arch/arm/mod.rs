//! Code shared by the ARM architectures.

pub mod cpu;
pub mod memory;
pub mod soc;
