//! Kernel memory pager: one buddy allocator per physical memory range.

use vstd::prelude::*;
use crate::mm::page_allocator::{
    allocates, allocation, block_ok, coalesce, disjoint_from_lists, init_lists, empty_lists,
    is_power_of_2, new_accepted, new_area_size, new_origin, new_phys_base, new_span, PageAllocator, BLOCK_LEVELS,
    MAX_BLOCK_SIZE, PAGE_SIZE,
};
use crate::arch::common64::bits::msb;
use crate::support::bits::{align_up, lemma_page_size_pow2};
use crate::support::range::Range;

verus! {

/// The number of bytes that the allocator for a memory range numbers pages
/// over: from the largest block boundary at or below the range's base to its
/// end (see `PageAllocator::new`).
pub open spec fn zone_span(r: Range) -> int {
    (r.base % MAX_BLOCK_SIZE) as int + r.size
}

/// The size, in whole pages, of the metadata an allocator numbering pages
/// over `size` bytes reserves at the end of its range.
pub open spec fn metadata_area(size: usize) -> int {
    let m = (8 * crate::mm::page_allocator::metadata_words((size / PAGE_SIZE) as nat)) as int;
    m + (PAGE_SIZE - m % (PAGE_SIZE as int)) % (PAGE_SIZE as int)
}

/// Whether an allocator is made for the memory range `r`: the range holds at
/// least a page besides its metadata, and the allocator accepts the area.
pub open spec fn zone_made(r: Range, vb: usize) -> bool {
    &&& r.size >= PAGE_SIZE
    &&& zone_span(r) <= usize::MAX
    &&& r.size - PAGE_SIZE >= metadata_area(zone_span(r) as usize)
    &&& new_accepted(r.base, r.size, vb, 1)
}

/// The available part of a memory range: the range without its metadata area.
pub open spec fn zone_avail(r: Range) -> Range {
    Range { base: r.base, size: (r.size - metadata_area(zone_span(r) as usize)) as usize }
}

/// The page allocators, one zone per physical memory range (`None` for a
/// range too small to serve pages).
pub struct Pager {
    allocators: Vec<Option<PageAllocator>>,
}

impl Pager {
    /// The zones' allocators.
    pub closed spec fn zones(&self) -> Seq<Option<PageAllocator>> {
        self.allocators@
    }

    /// Every allocator is well formed.
    pub open spec fn wf(&self) -> bool {
        forall|z: int| 0 <= z < self.zones().len() && #[trigger] self.zones()[z] is Some ==> self.zones()[z]->0.wf()
    }

    /// Initializes the page allocators for the memory layout.
    ///
    /// Each allocator reserves enough whole pages at the end of its range for
    /// its metadata; the rest of the range is available. A range that cannot
    /// hold a page besides its metadata gets no allocator.
    pub fn init(mem_layout: &[Range], virtual_base: usize) -> (r: Pager)
        requires
            virtual_base % PAGE_SIZE == 0,
            forall|i: int| 0 <= i < mem_layout@.len() ==> (#[trigger] mem_layout@[i]).base % PAGE_SIZE == 0,
        ensures
            r.wf(),
            r.zones().len() == mem_layout@.len(),
            forall|i: int|
                0 <= i < mem_layout@.len() ==> (#[trigger] r.zones()[i] is Some <==> zone_made(mem_layout@[i], virtual_base)),
            forall|i: int|
                0 <= i < mem_layout@.len() && #[trigger] r.zones()[i] is Some ==> {
                    let m = mem_layout@[i];
                    let a = r.zones()[i]->0;
                    &&& a.area_base() == virtual_base + new_origin(m.base)
                    &&& a.num_pages() == new_span(m.base, m.size) / PAGE_SIZE as int
                    &&& a.kernel_base() == virtual_base
                    &&& a.free_lists() == init_lists(
                        seq![zone_avail(m)],
                        virtual_base,
                        (virtual_base + new_phys_base(m.base)) as usize,
                        new_area_size(m.size) as usize,
                        (virtual_base + new_origin(m.base)) as usize,
                        empty_lists(),
                    )
                },
    {
        let mut allocators: Vec<Option<PageAllocator>> = Vec::new();
        let mut i: usize = 0;
        while i < mem_layout.len()
            invariant
                i <= mem_layout@.len(),
                virtual_base % PAGE_SIZE == 0,
                forall|k: int| 0 <= k < mem_layout@.len() ==> (#[trigger] mem_layout@[k]).base % PAGE_SIZE == 0,
                allocators@.len() == i,
                forall|z: int| 0 <= z < i && #[trigger] allocators@[z] is Some ==> allocators@[z]->0.wf(),
                forall|k: int| 0 <= k < i ==> (#[trigger] allocators@[k] is Some <==> zone_made(mem_layout@[k], virtual_base)),
                forall|k: int|
                    0 <= k < i && #[trigger] allocators@[k] is Some ==> {
                        let m = mem_layout@[k];
                        let a = allocators@[k]->0;
                        &&& a.area_base() == virtual_base + new_origin(m.base)
                        &&& a.num_pages() == new_span(m.base, m.size) / PAGE_SIZE as int
                        &&& a.kernel_base() == virtual_base
                        &&& a.free_lists() == init_lists(
                            seq![zone_avail(m)],
                            virtual_base,
                            (virtual_base + new_phys_base(m.base)) as usize,
                            new_area_size(m.size) as usize,
                            (virtual_base + new_origin(m.base)) as usize,
                            empty_lists(),
                        )
                    },
            decreases mem_layout@.len() - i,
        {
            let r = mem_layout[i];
            let zone = Self::make_zone(r, virtual_base);
            allocators.push(zone);
            i += 1;
        }
        Pager { allocators }
    }

    /// The allocator for one memory range, if the range can serve pages.
    fn make_zone(r: Range, virtual_base: usize) -> (z: Option<PageAllocator>)
        requires
            virtual_base % PAGE_SIZE == 0,
            r.base % PAGE_SIZE == 0,
        ensures
            z is Some <==> zone_made(r, virtual_base),
            z matches Some(a) ==> {
                &&& a.wf()
                &&& a.area_base() == virtual_base + new_origin(r.base)
                &&& a.num_pages() == new_span(r.base, r.size) / PAGE_SIZE as int
                &&& a.kernel_base() == virtual_base
                &&& a.free_lists() == init_lists(
                    seq![zone_avail(r)],
                    virtual_base,
                    (virtual_base + new_phys_base(r.base)) as usize,
                    new_area_size(r.size) as usize,
                    (virtual_base + new_origin(r.base)) as usize,
                    empty_lists(),
                )
            },
    {
        // If the memory area is not large enough for even a single page, skip
        // it.
        if r.size < PAGE_SIZE {
            return None;
        }
        // Reserve whole pages for the metadata at the end of the area; skip
        // the area if no page is left besides them. The metadata covers the
        // pages from the largest block boundary at or below the base.
        let lead = r.base % MAX_BLOCK_SIZE;
        if r.size > usize::MAX - lead {
            return None;
        }
        let size = PageAllocator::calc_metadata_size(lead + r.size);
        proof {
            lemma_page_size_pow2();
        }
        let alloc_size = align_up(size, PAGE_SIZE);
        if r.size - PAGE_SIZE < alloc_size {
            return None;
        }
        let avail = [Range { base: r.base, size: r.size - alloc_size }];
        proof {
            assert(avail@ =~= seq![zone_avail(r)]);
        }
        PageAllocator::new(r.base, r.size, virtual_base, &avail)
    }
    /// Allocates a contiguous block of physical pages from the first zone
    /// that can serve it.
    ///
    /// Returns the physical base address of the block, the number of pages
    /// allocated and the zone the pages came from; `None` when no zone can
    /// serve the request.
    pub fn allocate(&mut self, pages: usize) -> (r: Option<(usize, usize, usize)>)
        requires
            old(self).wf(),
        ensures
            final(self).wf(),
            final(self).zones().len() == old(self).zones().len(),
            match r {
                None => {
                    &&& final(self).zones() == old(self).zones()
                    &&& forall|z: int|
                        0 <= z < old(self).zones().len() && #[trigger] old(self).zones()[z] is Some
                            ==> !allocates(old(self).zones()[z]->0, pages)
                },
                Some((base, n, zone)) => {
                    &&& zone < old(self).zones().len()
                    &&& old(self).zones()[zone as int] is Some
                    &&& allocates(old(self).zones()[zone as int]->0, pages)
                    &&& forall|z: int|
                        0 <= z < zone && #[trigger] old(self).zones()[z] is Some ==> !allocates(
                            old(self).zones()[z]->0,
                            pages,
                        )
                    &&& forall|z: int|
                        0 <= z < old(self).zones().len() && z != zone ==> #[trigger] final(self).zones()[z]
                            == old(self).zones()[z]
                    &&& final(self).zones()[zone as int] is Some
                    &&& allocation(
                        old(self).zones()[zone as int]->0,
                        final(self).zones()[zone as int]->0,
                        pages,
                        base,
                        n,
                    )
                },
            },
    {
        let mut zone: usize = 0;
        while zone < self.allocators.len()
            invariant
                zone <= self.allocators@.len(),
                self.wf(),
                self.allocators@ == old(self).allocators@,
                forall|z: int|
                    0 <= z < zone && #[trigger] old(self).zones()[z] is Some ==> !allocates(
                        old(self).zones()[z]->0,
                        pages,
                    ),
            decreases self.allocators@.len() - zone,
        {
            let slot = self.allocators[zone].take();
            match slot {
                Some(mut a) => {
                    proof {
                        assert(old(self).zones()[zone as int] is Some);
                    }
                    let r = a.allocate(pages);
                    self.allocators.set(zone, Some(a));
                    match r {
                        Some((base, n)) => {
                            proof {
                                assert forall|z: int|
                                    0 <= z < self.zones().len() && #[trigger] self.zones()[z] is Some implies self.zones()[z]->0.wf() by {
                                    if z != zone {
                                        assert(self.zones()[z] == old(self).zones()[z]);
                                    }
                                }
                            }
                            return Some((base, n, zone));
                        },
                        None => {
                            proof {
                                assert(self.allocators@ =~= old(self).allocators@);
                            }
                        },
                    }
                },
                None => {
                    self.allocators.set(zone, None);
                    proof {
                        assert(self.allocators@ =~= old(self).allocators@);
                    }
                },
            }
            zone += 1;
        }
        None
    }

    /// Frees a contiguous block of physical pages back to the zone it came
    /// from (see `PageAllocator::free` for what the block must be).
    pub fn free(&mut self, base: usize, pages: usize, zone: usize)
        requires
            old(self).wf(),
            zone < old(self).zones().len(),
            old(self).zones()[zone as int] is Some,
            ({
                let a = old(self).zones()[zone as int]->0;
                base != 0 && pages != 0 ==> {
                    &&& is_power_of_2(pages)
                    &&& msb(pages as u64) < BLOCK_LEVELS
                    &&& base + a.kernel_base() >= a.area_base()
                    &&& (base + a.kernel_base() - a.area_base()) % PAGE_SIZE as int == 0
                    &&& block_ok(
                        a.num_pages(),
                        msb(pages as u64) as int,
                        (base + a.kernel_base() - a.area_base()) / PAGE_SIZE as int,
                    )
                    &&& disjoint_from_lists(
                        a.free_lists(),
                        msb(pages as u64) as int,
                        (base + a.kernel_base() - a.area_base()) / PAGE_SIZE as int,
                    )
                }
            }),
        ensures
            final(self).wf(),
            final(self).zones().len() == old(self).zones().len(),
            forall|z: int|
                0 <= z < old(self).zones().len() && z != zone ==> #[trigger] final(self).zones()[z]
                    == old(self).zones()[z],
            final(self).zones()[zone as int] is Some,
            ({
                let a = old(self).zones()[zone as int]->0;
                let a2 = final(self).zones()[zone as int]->0;
                &&& a2.area_base() == a.area_base()
                &&& a2.num_pages() == a.num_pages()
                &&& a2.kernel_base() == a.kernel_base()
                &&& a2.free_lists() == (if base == 0 || pages == 0 {
                    a.free_lists()
                } else {
                    coalesce(
                        a.free_lists(),
                        msb(pages as u64) as int,
                        (base + a.kernel_base() - a.area_base()) / PAGE_SIZE as int,
                    )
                })
            }),
    {
        proof {
            assert(self.zones()[zone as int]->0.wf());
        }
        let slot = self.allocators[zone].take();
        let mut a = slot.unwrap();
        a.free(base, pages);
        self.allocators.set(zone, Some(a));
        proof {
            assert forall|z: int|
                0 <= z < self.zones().len() && #[trigger] self.zones()[z] is Some implies self.zones()[z]->0.wf() by {
                if z != zone {
                    assert(self.zones()[z] == old(self).zones()[z]);
                }
            }
        }
    }
}

} // verus!
