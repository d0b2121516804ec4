//! Verified core of the ROS kernel: bit utilities, the buddy page allocator,
//! translation table construction and platform configuration containers.

pub mod arch;
pub mod drivers;
pub mod early;
pub mod mm;
pub mod peripherals;
pub mod support;
