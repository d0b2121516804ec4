//! Page table initialization for the architecture.

use vstd::prelude::*;
use crate::arch::aarch64::pages::{total_size, PAGE_4K_MAX};
use crate::support::range::Range;

verus! {

/// Initializes the page tables for the memory layout (see
/// `arch::aarch64::pages::init_page_tables`). Returns the total memory size.
pub fn init_page_tables(mem_layout: &[Range], virtual_base: usize, kernel_base: usize, kernel_size: usize, pages_start: usize) -> (r: u64)
    requires
        total_size(mem_layout@) <= PAGE_4K_MAX,
    ensures
        r == total_size(mem_layout@),
{
    crate::arch::aarch64::pages::init_page_tables(mem_layout, virtual_base, kernel_base, kernel_size, pages_start)
}

} // verus!
