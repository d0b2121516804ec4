//! Peripheral register access.
//!
//! Peripheral registers are addressed relative to the peripheral base
//! address. The library computes register writes as values; the caller
//! performs them.

use vstd::prelude::*;

verus! {

/// A write of `value` to the peripheral register at offset `reg` from the
/// peripheral base address.
#[derive(Copy, Clone, Debug, PartialEq, Eq, Structural)]
pub struct RegisterWrite {
    pub reg: usize,
    pub value: u32,
}

/// Runs a delay loop of `count` iterations.
pub fn peripheral_delay(count: u64) {
    let mut c = count;
    while c > 0
        decreases c,
    {
        c -= 1;
    }
}

} // verus!
