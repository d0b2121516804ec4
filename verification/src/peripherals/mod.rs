//! Raspberry Pi peripherals.

pub mod base;
pub mod gpio;
pub mod soc;
pub mod mailbox;
pub mod memory;
pub mod mini_uart;
