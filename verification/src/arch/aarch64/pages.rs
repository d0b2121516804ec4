//! AArch64 page table initialization for the memory layout.
//!
//! 4 KiB pages are used for up to 8 GiB of memory; larger layouts are not
//! supported.

use vstd::prelude::*;
use crate::support::range::Range;

verus! {

/// The most memory served with 4 KiB pages.
pub const PAGE_4K_MAX: u64 = 8 * 1024 * 1024 * 1024;

/// The total size of the memory ranges.
pub open spec fn total_size(ranges: Seq<Range>) -> int
    decreases ranges.len(),
{
    if ranges.len() == 0 {
        0
    } else {
        total_size(ranges.drop_last()) + ranges.last().size
    }
}

proof fn lemma_total_prefix(ranges: Seq<Range>, n: int)
    requires
        0 <= n <= ranges.len(),
    ensures
        total_size(ranges.subrange(0, n)) <= total_size(ranges),
    decreases ranges.len(),
{
    if n < ranges.len() {
        assert(ranges.drop_last().subrange(0, n) =~= ranges.subrange(0, n));
        lemma_total_prefix(ranges.drop_last(), n);
    } else {
        assert(ranges.subrange(0, n) =~= ranges);
    }
}

/// Initializes the page tables for the memory layout, choosing the page size:
/// 4 KiB pages serve the layout, which must total at most `PAGE_4K_MAX`
/// bytes. The bootstrap tables are kept as they are. Returns the total
/// memory size.
pub fn init_page_tables(mem_layout: &[Range], virtual_base: usize, kernel_base: usize, kernel_size: usize, pages_start: usize) -> (r: u64)
    requires
        total_size(mem_layout@) <= PAGE_4K_MAX,
    ensures
        r == total_size(mem_layout@),
{
    let mut total_mem: u64 = 0;
    let mut i: usize = 0;
    while i < mem_layout.len()
        invariant
            i <= mem_layout@.len(),
            total_size(mem_layout@) <= PAGE_4K_MAX,
            total_mem == total_size(mem_layout@.subrange(0, i as int)),
        decreases mem_layout@.len() - i,
    {
        proof {
            assert(mem_layout@.subrange(0, i + 1).drop_last() =~= mem_layout@.subrange(0, i as int));
            lemma_total_prefix(mem_layout@, i + 1);
        }
        total_mem += mem_layout[i].size as u64;
        i += 1;
    }
    proof {
        assert(mem_layout@.subrange(0, mem_layout@.len() as int) =~= mem_layout@);
    }
    total_mem
}

} // verus!
