//! Memory management.

pub mod page_allocator;
pub mod pager;
pub mod pages;
pub mod slab_allocator;

use vstd::prelude::*;
use crate::arch::aarch64::task::Task;
use crate::mm::page_allocator::{allocates, allocation, block_ok, coalesce, disjoint_from_lists, is_power_of_2, BLOCK_LEVELS, PAGE_SIZE};
use crate::mm::pager::Pager;
use crate::arch::common64::bits::msb;

verus! {

/// Mapping strategies to use when mapping blocks of memory.
#[derive(Copy, Clone, Debug, PartialEq, Eq, Structural)]
pub enum MappingStrategy {
    /// A strategy that uses architecture-specific techniques, such as ARM
    /// sections, to map a block of memory using the fewest table entries.
    Compact,
    /// A strategy that maps a block of memory to individual pages.
    Granular,
}

/// Interface for allocating table pages.
pub trait TableAllocator {
    /// Whether the allocator can hand out another table page.
    spec fn can_alloc(&self) -> bool;

    /// Allocates a new table page and returns its physical address.
    fn alloc_table(&mut self) -> usize
        requires
            old(self).can_alloc(),
    ;
}

/// Maps a page into the current thread's virtual address space and returns
/// the virtual address of the mapped page. Mappings are local to a context
/// and may only be unmapped in reverse order.
pub fn kernel_map_page_local(task: &mut Task, virtual_base: usize, page: usize) -> (r: usize)
    requires
        virtual_base + page <= usize::MAX,
    ensures
        r == virtual_base + page,
        *final(task) == *old(task),
{
    task.map_page_local(virtual_base, page)
}

/// Unmaps the current thread's last mapped page.
pub fn kernel_unmap_page_local(task: &mut Task)
    ensures
        *final(task) == *old(task),
{
    task.unmap_page_local();
}

/// `p2` is the pager `p` after a successful allocation of `pages` pages that
/// returned `res`: the physical base address, the number of pages allocated
/// and the zone they came from, which is the first zone that can serve the
/// request (see `Pager::allocate`).
pub open spec fn allocation_step(p: Pager, p2: Pager, pages: usize, res: (usize, usize, usize)) -> bool {
    let (base, n, zone) = res;
    &&& p2.wf()
    &&& p2.zones().len() == p.zones().len()
    &&& zone < p.zones().len()
    &&& p.zones()[zone as int] is Some
    &&& allocates(p.zones()[zone as int]->0, pages)
    &&& forall|z: int| 0 <= z < zone && #[trigger] p.zones()[z] is Some ==> !allocates(p.zones()[z]->0, pages)
    &&& forall|z: int| 0 <= z < p.zones().len() && z != zone ==> #[trigger] p2.zones()[z] == p.zones()[z]
    &&& p2.zones()[zone as int] is Some
    &&& allocation(p.zones()[zone as int]->0, p2.zones()[zone as int]->0, pages, base, n)
}

/// Whether no zone of a pager can serve an allocation of `pages` pages.
pub open spec fn exhausted(p: Pager, pages: usize) -> bool {
    forall|z: int| 0 <= z < p.zones().len() && #[trigger] p.zones()[z] is Some ==> !allocates(p.zones()[z]->0, pages)
}

/// Allocates a contiguous block of physical pages from the kernel's pager:
/// the physical base address, the number of pages allocated and the zone the
/// pages came from (see `Pager::allocate`).
pub fn kernel_allocate(pager: &mut Pager, pages: usize) -> (r: Option<(usize, usize, usize)>)
    requires
        old(pager).wf(),
    ensures
        final(pager).wf(),
        final(pager).zones().len() == old(pager).zones().len(),
        match r {
            None => final(pager).zones() == old(pager).zones() && exhausted(*old(pager), pages),
            Some(res) => allocation_step(*old(pager), *final(pager), pages, res),
        },
{
    pager.allocate(pages)
}

/// Frees a contiguous block of physical pages back to its zone of the
/// kernel's pager (see `Pager::free`).
pub fn kernel_free(pager: &mut Pager, base: usize, pages: usize, zone: usize)
    requires
        old(pager).wf(),
        zone < old(pager).zones().len(),
        old(pager).zones()[zone as int] is Some,
        ({
            let a = old(pager).zones()[zone as int]->0;
            base != 0 && pages != 0 ==> {
                &&& is_power_of_2(pages)
                &&& msb(pages as u64) < BLOCK_LEVELS
                &&& base + a.kernel_base() >= a.area_base()
                &&& (base + a.kernel_base() - a.area_base()) % PAGE_SIZE as int == 0
                &&& block_ok(
                    a.num_pages(),
                    msb(pages as u64) as int,
                    (base + a.kernel_base() - a.area_base()) / PAGE_SIZE as int,
                )
                &&& disjoint_from_lists(
                    a.free_lists(),
                    msb(pages as u64) as int,
                    (base + a.kernel_base() - a.area_base()) / PAGE_SIZE as int,
                )
            }
        }),
    ensures
        final(pager).wf(),
        final(pager).zones().len() == old(pager).zones().len(),
        forall|z: int|
            0 <= z < old(pager).zones().len() && z != zone ==> #[trigger] final(pager).zones()[z]
                == old(pager).zones()[z],
        final(pager).zones()[zone as int] is Some,
        ({
            let a = old(pager).zones()[zone as int]->0;
            let a2 = final(pager).zones()[zone as int]->0;
            &&& a2.area_base() == a.area_base()
            &&& a2.num_pages() == a.num_pages()
            &&& a2.kernel_base() == a.kernel_base()
            &&& a2.free_lists() == (if base == 0 || pages == 0 {
                a.free_lists()
            } else {
                coalesce(
                    a.free_lists(),
                    msb(pages as u64) as int,
                    (base + a.kernel_base() - a.area_base()) / PAGE_SIZE as int,
                )
            })
        }),
{
    pager.free(base, pages, zone);
}

} // verus!
