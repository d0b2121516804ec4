//! Device drivers.

pub mod framebuffer;
