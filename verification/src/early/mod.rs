//! The early kernel stub: initialization parameters provided by the
//! bootloader and the UART1 console.

pub mod atags;
pub mod mini_uart;

use vstd::prelude::*;

verus! {

/// Maximum number of memory regions passed by the bootloader.
pub const MAX_MEM_REGIONS: usize = 16;

/// Memory region available to the kernel.
#[derive(Copy, Clone, Debug)]
pub struct ROSMemoryRegion {
    /// The base address of the region.
    pub base: usize,
    /// The size of the region in bytes.
    pub size: usize,
}

impl ROSMemoryRegion {
    /// An empty region at address 0.
    pub fn new() -> (r: Self)
        ensures
            r.base == 0,
            r.size == 0,
    {
        ROSMemoryRegion { base: 0, size: 0 }
    }
}

/// Initialization parameters provided by the bootloader.
pub struct ROSKernelInit {
    /// The base address for peripherals.
    pub peripheral_base: usize,
    /// The memory regions, `MAX_MEM_REGIONS` of them.
    pub memory_regions: Vec<ROSMemoryRegion>,
}

impl ROSKernelInit {
    /// Parameters with a peripheral base of 0 and `MAX_MEM_REGIONS` empty
    /// regions.
    pub fn new() -> (r: Self)
        ensures
            r.peripheral_base == 0,
            r.memory_regions@.len() == MAX_MEM_REGIONS,
            forall|i: int|
                0 <= i < MAX_MEM_REGIONS ==> #[trigger] r.memory_regions@[i].base == 0
                    && r.memory_regions@[i].size == 0,
    {
        let mut regions: Vec<ROSMemoryRegion> = Vec::new();
        while regions.len() < MAX_MEM_REGIONS
            invariant
                regions@.len() <= MAX_MEM_REGIONS,
                forall|i: int|
                    0 <= i < regions@.len() ==> #[trigger] regions@[i].base == 0 && regions@[i].size == 0,
            decreases MAX_MEM_REGIONS - regions@.len(),
        {
            regions.push(ROSMemoryRegion::new());
        }
        ROSKernelInit { peripheral_base: 0x0, memory_regions: regions }
    }
}

/// Runs a delay loop of `count` iterations.
pub fn delay(count: u64) {
    let mut c = count;
    while c > 0
        decreases c,
    {
        c -= 1;
    }
}

} // verus!
