//! AArch64 translation table page allocators and the page directory area.

use vstd::prelude::*;
use crate::mm::TableAllocator;
use crate::mm::{allocation_step, exhausted, kernel_allocate, kernel_free};
use crate::mm::page_allocator::{block_ok, block_set, first_free_level, free_pages, span_set, PageAllocator, PAGE_SIZE};
use crate::mm::pager::Pager;

verus! {

/// The base virtual address of the page directory.
pub const PAGE_DIRECTORY_VIRTUAL_BASE: u64 = 0xffff_fe00_0000_0000;

/// The size of the virtual area reserved for the page directory (2 TiB).
pub const PAGE_DIRECTORY_VIRTUAL_SIZE: u64 = 0x200_0000_0000;

/// Page size of the table pages.
pub const TABLE_PAGE_SIZE: usize = 4096;

/// Gets the virtual address of the page directory.
pub fn get_page_directory_virtual_base() -> (r: u64)
    ensures
        r == PAGE_DIRECTORY_VIRTUAL_BASE,
{
    PAGE_DIRECTORY_VIRTUAL_BASE
}

/// Gets the size of the virtual area reserved for the page directory.
pub fn get_page_directory_virtual_size() -> (r: u64)
    ensures
        r == PAGE_DIRECTORY_VIRTUAL_SIZE,
{
    PAGE_DIRECTORY_VIRTUAL_SIZE
}

/// Simple allocator for use before the kernel's page allocators are
/// initialized: hands out the pages after `next_table` in order.
pub struct LinearTableAllocator {
    next_table: usize,
}

impl LinearTableAllocator {
    /// The physical address of the next table.
    pub closed spec fn next(&self) -> usize {
        self.next_table
    }

    /// Constructs a linear table allocator starting at the physical address
    /// `next_table`.
    pub fn new(next_table: usize) -> (r: Self)
        ensures
            r.next() == next_table,
    {
        LinearTableAllocator { next_table }
    }

    /// Gets the physical address of the next table.
    pub fn get_next_table(&self) -> (r: usize)
        ensures
            r == self.next(),
    {
        self.next_table
    }
}

impl TableAllocator for LinearTableAllocator {
    /// Another page fits below the end of the address space.
    open spec fn can_alloc(&self) -> bool {
        self.next() + TABLE_PAGE_SIZE <= usize::MAX
    }

    /// Allocates a new table page: simply returns the next page address. The
    /// allocator assumes it is allocating from available memory.
    fn alloc_table(&mut self) -> (r: usize)
        ensures
            r == old(self).next(),
            final(self).next() == old(self).next() + TABLE_PAGE_SIZE,
    {
        let new_table = self.next_table;
        self.next_table += TABLE_PAGE_SIZE;
        new_table
    }
}

/// Table allocator drawing pages from the kernel's page allocators, four
/// pages at a time.
pub struct DynamicTableAllocator {
    next_table: usize,
    avail_tables: usize,
    zone: usize,
}

impl DynamicTableAllocator {
    /// The physical address of the next table.
    pub closed spec fn next(&self) -> usize {
        self.next_table
    }

    /// The number of tables left in the current block.
    pub closed spec fn available(&self) -> usize {
        self.avail_tables
    }

    /// The zone of the current block.
    pub closed spec fn zone_of(&self) -> usize {
        self.zone
    }

    /// Constructs a dynamic table allocator with no pages.
    pub fn new() -> (r: Self)
        ensures
            r.next() == 0,
            r.available() == 0,
            r.zone_of() == 0,
    {
        DynamicTableAllocator { next_table: 0, avail_tables: 0, zone: 0 }
    }
}

/// An allocation of four pages hands out exactly four pages.
proof fn lemma_four_pages()
    ensures
        crate::mm::page_allocator::alloc_level(4) == 2,
        vstd::arithmetic::power2::pow2(2) == 4,
{
    assert(3u64 >> 1u64 == 1u64) by (bit_vector);
    assert(crate::arch::common64::bits::msb(1) == 0);
    assert(crate::arch::common64::bits::msb(3) == 1);
    vstd::arithmetic::power2::lemma2_to64();
}

/// The page at physical address `base` (not 0) is a page numbered by `a`
/// and is not free in it.
pub open spec fn page_in_use(a: PageAllocator, base: int) -> bool {
    let q = (base + a.kernel_base() - a.area_base()) / PAGE_SIZE as int;
    &&& base > 0
    &&& base + a.kernel_base() >= a.area_base()
    &&& (base + a.kernel_base() - a.area_base()) % PAGE_SIZE as int == 0
    &&& block_ok(a.num_pages(), 0, q)
    &&& !a.free_memory().contains(q)
}

/// A page that is not free is disjoint from every free block.
proof fn lemma_not_free_disjoint(lists: Seq<Seq<int>>, q: int)
    requires
        !free_pages(lists).contains(q),
    ensures
        crate::mm::page_allocator::disjoint_from_lists(lists, 0, q),
{
    vstd::arithmetic::power2::lemma2_to64();
    assert forall|l2: int, i2: int|
        #![trigger lists[l2][i2]]
        0 <= l2 < crate::mm::page_allocator::BLOCK_LEVELS && 0 <= i2 < lists[l2].len()
            implies crate::mm::page_allocator::blocks_disjoint(0, q, l2, lists[l2][i2]) by {
        if lists[l2][i2] <= q < lists[l2][i2] + crate::mm::page_allocator::block_pages(l2) {
            assert(free_pages(lists).contains(q));
        }
    }
}

impl DynamicTableAllocator {
    /// Allocates a new table page and returns its physical address. When no
    /// table is left, a block of four pages is first allocated from the
    /// pager; `None` when that allocation fails.
    pub fn alloc_table(&mut self, pager: &mut Pager) -> (r: Option<usize>)
        requires
            old(pager).wf(),
            old(self).available() > 0 ==> old(self).next() + TABLE_PAGE_SIZE <= usize::MAX,
        ensures
            final(pager).wf(),
            old(self).available() > 0 ==> {
                &&& r == Some(old(self).next())
                &&& final(self).next() == old(self).next() + TABLE_PAGE_SIZE
                &&& final(self).available() == old(self).available() - 1
                &&& final(self).zone_of() == old(self).zone_of()
                &&& final(pager).zones() == old(pager).zones()
            },
            old(self).available() == 0 ==> match r {
                None => {
                    &&& exhausted(*old(pager), 4)
                    &&& final(pager).zones() == old(pager).zones()
                },
                Some(t) => {
                    &&& allocation_step(*old(pager), *final(pager), 4, (t, 4, final(self).zone_of()))
                    &&& final(self).next() == t + TABLE_PAGE_SIZE
                    &&& final(self).available() == 3
                },
            },
    {
        if self.avail_tables == 0 {
            match kernel_allocate(pager, 4) {
                Some((next, avail, zone)) => {
                    proof {
                        lemma_four_pages();
                        let a = old(pager).zones()[zone as int]->0;
                        let a2 = pager.zones()[zone as int]->0;
                        a2.lemma_layout();
                        let p = a.free_lists()[first_free_level(a.free_lists(), 2)][0];
                        assert(block_ok(a.num_pages(), 2, p));
                        assert(next + 4 * TABLE_PAGE_SIZE <= usize::MAX);
                    }
                    self.next_table = next;
                    self.avail_tables = avail;
                    self.zone = zone;
                },
                None => return None,
            }
        }
        let new_table = self.next_table;
        self.next_table += TABLE_PAGE_SIZE;
        self.avail_tables -= 1;
        Some(new_table)
    }
    /// Frees the tables left unused back to their zone, one page at a time.
    /// The pages must still be in use in the zone.
    pub fn release(&mut self, pager: &mut Pager)
        requires
            old(pager).wf(),
            old(self).available() > 0 ==> {
                &&& old(self).zone_of() < old(pager).zones().len()
                &&& old(pager).zones()[old(self).zone_of() as int] is Some
                &&& old(self).next() + old(self).available() * TABLE_PAGE_SIZE <= usize::MAX
                &&& forall|i: int|
                    0 <= i < old(self).available() ==> page_in_use(
                        old(pager).zones()[old(self).zone_of() as int]->0,
                        #[trigger] (old(self).next() + i * TABLE_PAGE_SIZE),
                    )
            },
        ensures
            final(pager).wf(),
            final(self).available() == 0,
            final(pager).zones().len() == old(pager).zones().len(),
            old(self).available() == 0 ==> final(pager).zones() == old(pager).zones(),
            old(self).available() > 0 ==> {
                let z = old(self).zone_of() as int;
                let a = old(pager).zones()[z]->0;
                let a2 = final(pager).zones()[z]->0;
                &&& forall|y: int| 0 <= y < old(pager).zones().len() && y != z ==> #[trigger] final(pager).zones()[y]
                    == old(pager).zones()[y]
                &&& final(pager).zones()[z] is Some
                &&& a2.area_base() == a.area_base()
                &&& a2.num_pages() == a.num_pages()
                &&& a2.kernel_base() == a.kernel_base()
                &&& a2.free_memory() == a.free_memory().union(
                    span_set((old(self).next() + a.kernel_base() - a.area_base()) / PAGE_SIZE as int, old(self).available() as int),
                )
            },
    {
        let ghost n0 = self.avail_tables;
        let ghost start = self.next_table;
        let ghost z = self.zone as int;
        let ghost a0 = if n0 > 0 { pager.zones()[z]->0 } else { arbitrary() };
        let ghost q0 = (start + a0.kernel_base() - a0.area_base()) / PAGE_SIZE as int;
        let mut k: usize = 0;
        while self.avail_tables > 0
            invariant
                pager.wf(),
                pager.zones().len() == old(pager).zones().len(),
                self.avail_tables + k == n0,
                q0 == (start + a0.kernel_base() - a0.area_base()) / PAGE_SIZE as int,
                self.zone == z,
                self.next_table == start + k * TABLE_PAGE_SIZE,
                n0 == 0 ==> pager.zones() == old(pager).zones(),
                n0 > 0 ==> {
                    &&& z < old(pager).zones().len()
                    &&& old(pager).zones()[z] is Some
                    &&& a0 == old(pager).zones()[z]->0
                    &&& start + n0 * TABLE_PAGE_SIZE <= usize::MAX
                    &&& forall|i: int| 0 <= i < n0 ==> page_in_use(a0, #[trigger] (start + i * TABLE_PAGE_SIZE))
                    &&& forall|y: int| 0 <= y < old(pager).zones().len() && y != z ==> #[trigger] pager.zones()[y]
                        == old(pager).zones()[y]
                    &&& pager.zones()[z] is Some
                    &&& pager.zones()[z]->0.area_base() == a0.area_base()
                    &&& pager.zones()[z]->0.num_pages() == a0.num_pages()
                    &&& pager.zones()[z]->0.kernel_base() == a0.kernel_base()
                    &&& pager.zones()[z]->0.free_memory() == a0.free_memory().union(span_set(q0, k as int))
                },
            decreases self.avail_tables,
        {
            let ghost a = pager.zones()[z]->0;
            let ghost base = self.next_table as int;
            proof {
                assert(page_in_use(a0, start + k * TABLE_PAGE_SIZE));
                let q = (base + a.kernel_base() - a.area_base()) / PAGE_SIZE as int;
                assert(q == q0 + k) by {
                    let x = start + a0.kernel_base() - a0.area_base();
                    assert(page_in_use(a0, start + 0 * TABLE_PAGE_SIZE));
                    assert(x % PAGE_SIZE as int == 0);
                    vstd::arithmetic::div_mod::lemma_fundamental_div_mod(x, PAGE_SIZE as int);
                    assert(base + a.kernel_base() - a.area_base() == (q0 + k) * PAGE_SIZE) by (nonlinear_arith)
                        requires
                            base + a.kernel_base() - a.area_base() == x + k * PAGE_SIZE,
                            x == PAGE_SIZE * (x / PAGE_SIZE as int),
                            q0 == x / PAGE_SIZE as int;
                    vstd::arithmetic::div_mod::lemma_div_multiples_vanish(q0 + k, PAGE_SIZE as int);
                }
                assert(!a.free_memory().contains(q)) by {
                    if a.free_memory().contains(q) {
                        if !a0.free_memory().contains(q) {
                            assert(span_set(q0, k as int).contains(q));
                        }
                    }
                }
                lemma_not_free_disjoint(a.free_lists(), q);
                assert(crate::arch::common64::bits::msb(1) == 0);
                assert(1usize & 0usize == 0usize) by (bit_vector);
                a.law_free_adds_pages(base as usize, 1);
            }
            kernel_free(pager, self.next_table, 1, self.zone);
            proof {
                let q = (base + a.kernel_base() - a.area_base()) / PAGE_SIZE as int;
                vstd::arithmetic::power2::lemma2_to64();
                assert(block_set(0, q) =~= set![q]);
                assert(a0.free_memory().union(span_set(q0, k as int)).union(block_set(0, q)) =~= a0.free_memory().union(span_set(q0, k + 1)));
            }
            self.next_table = self.next_table + TABLE_PAGE_SIZE;
            self.avail_tables -= 1;
            k += 1;
        }
        proof {
            if n0 > 0 {
                assert(k == n0);
            }
        }
    }
}

} // verus!
