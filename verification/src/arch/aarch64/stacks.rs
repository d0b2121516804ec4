//! AArch64 kernel ISR stacks.
//!
//! Each core's ISR stack is mapped into the ISR stack area, stacks separated
//! by unmapped guard pages: a stack overflow then causes an exception.
//!
//! ```text
//!     +---------------------------+ +stack_virtual_offset * N
//!     | Core N ISR Stack          |
//!     +---------------------------+
//!     | / / / / / Guard / / / / / |
//!     +---------------------------+
//!    ...                         ...
//!     +---------------------------+ +stack_virtual_offset
//!     | Core 0 ISR Stack          |
//!     +---------------------------+
//!     | / / / / / Guard / / / / / |
//!     +---------------------------+  isr_base
//! ```
//!
//! The top of each secondary core's stack goes into the kernel stack address
//! list, one word per core id (the entry of core 0 is unused).

use vstd::prelude::*;
use crate::arch::arm::cpu::Core;
use crate::mm::{allocation_step, exhausted, kernel_allocate};
use crate::mm::pager::Pager;
use crate::arch::aarch64::tables::{PAGE_DIRECTORY_VIRTUAL_BASE, PAGE_DIRECTORY_VIRTUAL_SIZE};
use crate::arch::aarch64::mm::{map_memory, map_spec, TableMemory};

verus! {

/// Page size of the stacks.
pub const STACK_PAGE_SIZE: usize = 4096;

/// How a stack is set up: the write of its top into the stack address list,
/// and the mapping of its `size` bytes of physical memory at `phys` to the
/// kernel virtual offset `virt` (virtual address minus the kernel segment
/// base).
#[derive(Copy, Clone, Debug, PartialEq, Eq, Structural)]
pub struct StackSetup {
    pub entry_addr: usize,
    pub entry_value: usize,
    pub virt: usize,
    pub phys: usize,
    pub size: usize,
}

/// The virtual base of core `id`'s stack: past `id` stacks with their guard
/// pages and its own guard page.
pub open spec fn stack_virtual_base(isr_base: int, stack_pages: int, id: int) -> int {
    isr_base + (stack_pages + 1) * 4096 * id + 4096
}

/// The set-up of core `id`'s ISR stack made of the `stack_pages` pages at
/// physical address `phys`.
pub open spec fn stack_setup(id: int, virt_base: int, isr_base: int, stack_list: int, stack_pages: int, phys: int) -> StackSetup {
    let svb = stack_virtual_base(isr_base, stack_pages, id);
    StackSetup {
        entry_addr: (virt_base + stack_list + 8 * id) as usize,
        entry_value: (svb + stack_pages * 4096) as usize,
        virt: (svb - virt_base) as usize,
        phys: phys as usize,
        size: (stack_pages * 4096) as usize,
    }
}

/// Whether the set-up of core `id`'s stack can be computed without
/// overflow.
pub open spec fn stack_fits(id: int, virt_base: int, isr_base: int, stack_list: int, stack_pages: int) -> bool {
    let svb = stack_virtual_base(isr_base, stack_pages, id);
    &&& virt_base + stack_list + 8 * id <= usize::MAX
    &&& svb + stack_pages * 4096 <= usize::MAX
    &&& svb >= virt_base
}

/// The set-up of a core's ISR stack maps its `stack_pages` pages, at the
/// given physical address, to a virtual range that starts one guard page
/// past the end of the previous core's range (the ranges being numbered by
/// core id from `isr_base`), and records in the stack address list slot of
/// the core (at `virt_base + stack_list + 8 * id`) the top of that range:
/// the stack grows down from there over exactly the mapped pages.
pub proof fn law_stack_setup(id: int, virt_base: int, isr_base: int, stack_list: int, stack_pages: int, phys: int)
    requires
        0 <= id,
        0 <= virt_base,
        0 <= stack_list,
        0 <= stack_pages,
        0 <= phys <= usize::MAX,
        stack_fits(id, virt_base, isr_base, stack_list, stack_pages),
    ensures
        ({
            let s = stack_setup(id, virt_base, isr_base, stack_list, stack_pages, phys);
            &&& s.size == stack_pages * 4096
            &&& s.phys == phys
            &&& s.entry_addr == virt_base + stack_list + 8 * id
            &&& s.entry_value == virt_base + s.virt + s.size
            &&& virt_base + s.virt == isr_base + id * ((stack_pages + 1) * 4096) + 4096
        }),
{
    assert(0 <= (stack_pages + 1) * 4096 * id) by (nonlinear_arith)
        requires
            0 <= stack_pages,
            0 <= id,
    ;
    assert((stack_pages + 1) * 4096 * id == id * ((stack_pages + 1) * 4096)) by (nonlinear_arith);
}

/// The stacks of two cores lie apart, the lower one's range ending at least
/// a guard page below the higher one's: a stack that overflows runs into an
/// unmapped page, never into another core's stack.
pub proof fn law_stacks_apart(
    id1: int,
    id2: int,
    virt_base: int,
    isr_base: int,
    stack_list: int,
    stack_pages: int,
    phys1: int,
    phys2: int,
)
    requires
        0 <= id1 < id2,
        0 <= virt_base,
        0 <= stack_pages,
        0 <= phys1 <= usize::MAX,
        0 <= phys2 <= usize::MAX,
        stack_fits(id1, virt_base, isr_base, stack_list, stack_pages),
        stack_fits(id2, virt_base, isr_base, stack_list, stack_pages),
    ensures
        ({
            let s1 = stack_setup(id1, virt_base, isr_base, stack_list, stack_pages, phys1);
            let s2 = stack_setup(id2, virt_base, isr_base, stack_list, stack_pages, phys2);
            s1.virt + s1.size + 4096 <= s2.virt
        }),
{
    assert((stack_pages + 1) * 4096 * id1 + (stack_pages + 1) * 4096 <= (stack_pages + 1) * 4096 * id2) by (nonlinear_arith)
        requires
            0 <= id1 < id2,
            0 <= stack_pages,
    ;
    assert(0 <= (stack_pages + 1) * 4096 * id1) by (nonlinear_arith)
        requires
            0 <= stack_pages,
            0 <= id1,
    ;
}

/// Computes the set-up of core `core_id`'s ISR stack, whose pages are at
/// physical address `stack_base`.
pub fn isr_stack_setup(
    core_id: usize,
    virt_base: usize,
    isr_base: usize,
    kernel_stack_list: usize,
    kernel_stack_pages: usize,
    stack_base: usize,
) -> (r: StackSetup)
    requires
        stack_fits(core_id as int, virt_base as int, isr_base as int, kernel_stack_list as int, kernel_stack_pages as int),
    ensures
        r == stack_setup(
            core_id as int,
            virt_base as int,
            isr_base as int,
            kernel_stack_list as int,
            kernel_stack_pages as int,
            stack_base as int,
        ),
{
    proof {
        assert(0 <= (kernel_stack_pages + 1) * 4096 * core_id) by (nonlinear_arith);
        assert(kernel_stack_pages * 4096 <= (kernel_stack_pages + 1) * 4096 * core_id + kernel_stack_pages * 4096) by (nonlinear_arith);
    }
    let stack_size = kernel_stack_pages * STACK_PAGE_SIZE;
    let stack_virtual_offset = (kernel_stack_pages + 1) * STACK_PAGE_SIZE;
    proof {
        assert((kernel_stack_pages + 1) * 4096 * core_id == stack_virtual_offset * core_id) by (nonlinear_arith)
            requires stack_virtual_offset == (kernel_stack_pages + 1) * 4096;
    }
    let svb = isr_base + stack_virtual_offset * core_id + STACK_PAGE_SIZE;
    StackSetup {
        entry_addr: virt_base + kernel_stack_list + 8 * core_id,
        entry_value: svb + stack_size,
        virt: svb - virt_base,
        phys: stack_base,
        size: stack_size,
    }
}

/// The mapping of the primary core's stack into the ISR area, and the new
/// start of its stack: the same physical memory, reached through the ISR
/// area with its guard page instead of the kernel image.
pub open spec fn primary_stack(virt_base: int, isr_base: int, stack_pages: int, primary_stack_start: int) -> (StackSetup, int) {
    (
        StackSetup {
            entry_addr: 0,
            entry_value: 0,
            virt: (isr_base + 4096 - virt_base) as usize,
            phys: (primary_stack_start - stack_pages * 4096 - virt_base) as usize,
            size: (stack_pages * 4096) as usize,
        },
        isr_base + (stack_pages + 1) * 4096,
    )
}

/// The primary core's stack is mapped one guard page into the ISR stack
/// area, from the same physical memory (the `stack_pages` pages below its
/// start in the kernel image), and its new start is the top of that
/// mapping.
pub proof fn law_primary_stack(virt_base: int, isr_base: int, stack_pages: int, primary_stack_start: int)
    requires
        0 <= virt_base,
        0 <= stack_pages,
        isr_base + 4096 >= virt_base,
        isr_base + (stack_pages + 1) * 4096 <= usize::MAX,
        stack_pages * 4096 + virt_base <= primary_stack_start <= usize::MAX,
    ensures
        ({
            let (s, start) = primary_stack(virt_base, isr_base, stack_pages, primary_stack_start);
            &&& s.size == stack_pages * 4096
            &&& virt_base + s.virt == isr_base + 4096
            &&& start == virt_base + s.virt + s.size
            &&& virt_base + s.phys + s.size == primary_stack_start
        }),
{
}

/// The pager went through the successful allocations `allocs` in order, each
/// of `pages` pages: `ps[k + 1]` is `ps[k]` after allocation `k`.
pub open spec fn allocation_chain(ps: Seq<Pager>, pages: usize, allocs: Seq<(usize, usize, usize)>) -> bool {
    &&& ps.len() == allocs.len() + 1
    &&& forall|k: int|
        #![trigger allocs[k]]
        0 <= k < allocs.len() ==> allocation_step(ps[k], ps[k + 1], pages, allocs[k])
}

/// Plans the kernel ISR stacks: the primary core's stack mapping and new
/// stack start, then, for each secondary core in order, its stack pages
/// allocated from the pager and its set-up. The stacks are allocated in core
/// order, each by `kernel_allocate`, and each set-up maps the pages of its
/// allocation. `None` when a stack cannot be allocated: the pager then has no
/// zone left that can hand out `kernel_stack_pages` pages.
pub fn init_kernel_isr_stacks(
    pager: &mut Pager,
    cores: &[Core],
    virt_base: usize,
    isr_base: usize,
    primary_stack_start: usize,
    kernel_stack_list: usize,
    kernel_stack_pages: usize,
) -> (r: Option<(StackSetup, usize, Vec<StackSetup>)>)
    requires
        old(pager).wf(),
        isr_base + 4096 >= virt_base,
        isr_base + (kernel_stack_pages + 1) * 4096 <= usize::MAX,
        primary_stack_start >= kernel_stack_pages * 4096 + virt_base,
        forall|k: int|
            1 <= k < cores@.len() ==> stack_fits(
                (#[trigger] cores@[k]).spec_id() as int,
                virt_base as int,
                isr_base as int,
                kernel_stack_list as int,
                kernel_stack_pages as int,
            ),
    ensures
        final(pager).wf(),
        cores@.len() < 2 ==> r is Some && *final(pager) == *old(pager),
        exists|ps: Seq<Pager>, allocs: Seq<(usize, usize, usize)>|
            #![trigger allocation_chain(ps, kernel_stack_pages, allocs)]
            {
                &&& allocation_chain(ps, kernel_stack_pages, allocs)
                &&& ps[0].zones() == old(pager).zones()
                &&& ps.last().zones() == final(pager).zones()
                &&& match r {
                    Some(res) => {
                        &&& allocs.len() == res.2@.len()
                        &&& forall|k: int| 0 <= k < allocs.len() ==> (#[trigger] res.2@[k]).phys == allocs[k].0
                    },
                    None => {
                        &&& allocs.len() + 1 < cores@.len()
                        &&& exhausted(*final(pager), kernel_stack_pages)
                    },
                }
            },
        r matches Some(res) ==> {
            &&& (res.0, res.1 as int) == primary_stack(
                virt_base as int,
                isr_base as int,
                kernel_stack_pages as int,
                primary_stack_start as int,
            )
            &&& res.2@.len() == if cores@.len() < 2 {
                0
            } else {
                cores@.len() - 1
            }
            &&& forall|k: int|
                0 <= k < res.2@.len() ==> #[trigger] res.2@[k] == stack_setup(
                    cores@[k + 1].spec_id() as int,
                    virt_base as int,
                    isr_base as int,
                    kernel_stack_list as int,
                    kernel_stack_pages as int,
                    res.2@[k].phys as int,
                )
        },
{
    proof {
        assert(kernel_stack_pages * 4096 <= (kernel_stack_pages + 1) * 4096) by (nonlinear_arith);
    }
    let stack_size = kernel_stack_pages * STACK_PAGE_SIZE;
    let primary = StackSetup {
        entry_addr: 0,
        entry_value: 0,
        virt: isr_base + STACK_PAGE_SIZE - virt_base,
        phys: primary_stack_start - stack_size - virt_base,
        size: stack_size,
    };
    let new_start = isr_base + (kernel_stack_pages + 1) * STACK_PAGE_SIZE;
    let mut setups: Vec<StackSetup> = Vec::new();
    let ghost mut ps: Seq<Pager> = seq![*pager];
    let ghost mut allocs: Seq<(usize, usize, usize)> = Seq::empty();
    // Nothing left to do with a single core.
    if cores.len() < 2 {
        proof {
            assert(allocation_chain(ps, kernel_stack_pages, allocs));
        }
        return Some((primary, new_start, setups));
    }
    let mut k: usize = 1;
    while k < cores.len()
        invariant
            1 <= k <= cores@.len(),
            pager.wf(),
            pager.zones().len() == old(pager).zones().len(),
            allocation_chain(ps, kernel_stack_pages, allocs),
            ps[0] == *old(pager),
            ps.last() == *pager,
            allocs.len() == setups@.len(),
            forall|j: int| 0 <= j < allocs.len() ==> (#[trigger] setups@[j]).phys == allocs[j].0,
            setups@.len() == k - 1,
            forall|j: int|
                1 <= j < cores@.len() ==> stack_fits(
                    (#[trigger] cores@[j]).spec_id() as int,
                    virt_base as int,
                    isr_base as int,
                    kernel_stack_list as int,
                    kernel_stack_pages as int,
                ),
            forall|j: int|
                0 <= j < setups@.len() ==> #[trigger] setups@[j] == stack_setup(
                    cores@[j + 1].spec_id() as int,
                    virt_base as int,
                    isr_base as int,
                    kernel_stack_list as int,
                    kernel_stack_pages as int,
                    setups@[j].phys as int,
                ),
        decreases cores@.len() - k,
    {
        let core_id = cores[k].get_id();
        // The stack pages must be allocated to continue. The zone is ignored:
        // the pages are never freed.
        let ghost before = *pager;
        let (stack_base, _pages, _zone) = match kernel_allocate(pager, kernel_stack_pages) {
            Some(a) => a,
            None => {
                proof {
                    assert(exhausted(*pager, kernel_stack_pages));
                    assert(allocation_chain(ps, kernel_stack_pages, allocs));
                }
                return None;
            },
        };
        proof {
            let ps2 = ps.push(*pager);
            let allocs2 = allocs.push((stack_base, _pages, _zone));
            assert forall|j: int|
                #![trigger allocs2[j]]
                0 <= j < allocs2.len() implies allocation_step(ps2[j], ps2[j + 1], kernel_stack_pages, allocs2[j]) by {
                if j < allocs.len() {
                    assert(allocs2[j] == allocs[j]);
                    assert(allocation_step(ps[j], ps[j + 1], kernel_stack_pages, allocs[j]));
                } else {
                    assert(ps2[j] == before);
                }
            }
            ps = ps2;
            allocs = allocs2;
        }
        proof {
            assert(stack_fits(core_id as int, virt_base as int, isr_base as int, kernel_stack_list as int, kernel_stack_pages as int));
        }
        let s = isr_stack_setup(core_id, virt_base, isr_base, kernel_stack_list, kernel_stack_pages, stack_base);
        setups.push(s);
        k += 1;
    }
    proof {
        assert(allocation_chain(ps, kernel_stack_pages, allocs));
    }
    Some((primary, new_start, setups))
}

/// The size of the area holding `core_count` stacks of `stack_pages` pages,
/// each with its guard page.
pub open spec fn stack_region_size(core_count: int, stack_pages: int) -> int {
    (stack_pages + 1) * 4096 * core_count
}

/// Lays out the stack areas below the page directory area and the physical
/// memory they exclude from the kernel's direct map. The kernel thread stack
/// area ends at the page directory area, and the ISR stack area ends where
/// the thread stack area starts; each holds `core_count` stacks of
/// `kernel_stack_pages` pages with their guard pages. The excluded range
/// starts at the physical image of the ISR stack area (its virtual address
/// minus `virt_base`) and covers both stack areas and the page directory
/// area.
///
/// Returns the thread stack area base, the ISR stack area base, and the base
/// and size of the excluded physical range.
pub fn stack_regions(core_count: u64, kernel_stack_pages: u64, virt_base: u64) -> (r: (u64, u64, u64, u64))
    requires
        (kernel_stack_pages + 1) * 4096 <= u64::MAX,
        virt_base + 2 * stack_region_size(core_count as int, kernel_stack_pages as int) <= PAGE_DIRECTORY_VIRTUAL_BASE,
        PAGE_DIRECTORY_VIRTUAL_SIZE + 2 * stack_region_size(core_count as int, kernel_stack_pages as int) <= u64::MAX,
    ensures
        ({
            let region = stack_region_size(core_count as int, kernel_stack_pages as int);
            &&& r.0 == PAGE_DIRECTORY_VIRTUAL_BASE - region
            &&& r.1 == PAGE_DIRECTORY_VIRTUAL_BASE - 2 * region
            &&& r.2 == r.1 - virt_base
            &&& r.3 == PAGE_DIRECTORY_VIRTUAL_SIZE + 2 * region
        }),
{
    proof {
        assert(0 <= (kernel_stack_pages + 1) * 4096 * core_count) by (nonlinear_arith);
    }
    let stack_size = (kernel_stack_pages + 1) * (STACK_PAGE_SIZE as u64);
    let region_size = stack_size * core_count;
    let thread_base = PAGE_DIRECTORY_VIRTUAL_BASE - region_size;
    let isr_base = thread_base - region_size;
    (thread_base, isr_base, isr_base - virt_base, PAGE_DIRECTORY_VIRTUAL_SIZE + region_size * 2)
}

/// The writes releasing the secondary cores from their spin tables: the
/// kernel start address written at each core's release address (a physical
/// address, reached through the kernel segment). The first core is the
/// running one.
pub fn core_release_writes(cores: &[Core], virt_base: usize, kernel_base: usize) -> (r: Vec<(usize, usize)>)
    requires
        forall|k: int| 1 <= k < cores@.len() ==> virt_base + (#[trigger] cores@[k]).spec_cpu_release_addr() <= usize::MAX,
    ensures
        r@.len() == if cores@.len() < 2 {
            0
        } else {
            cores@.len() - 1
        },
        forall|k: int|
            0 <= k < r@.len() ==> #[trigger] r@[k] == (
                (virt_base + cores@[k + 1].spec_cpu_release_addr()) as usize,
                kernel_base,
            ),
{
    let mut writes: Vec<(usize, usize)> = Vec::new();
    if cores.len() < 2 {
        return writes;
    }
    let mut k: usize = 1;
    while k < cores.len()
        invariant
            1 <= k <= cores@.len(),
            writes@.len() == k - 1,
            forall|j: int| 1 <= j < cores@.len() ==> virt_base + (#[trigger] cores@[j]).spec_cpu_release_addr() <= usize::MAX,
            forall|j: int|
                0 <= j < writes@.len() ==> #[trigger] writes@[j] == (
                    (virt_base + cores@[j + 1].spec_cpu_release_addr()) as usize,
                    kernel_base,
                ),
        decreases cores@.len() - k,
    {
        let addr = cores[k].get_cpu_release_addr();
        proof {
            assert(virt_base + cores@[k as int].spec_cpu_release_addr() <= usize::MAX);
        }
        writes.push((virt_base + addr, kernel_base));
        k += 1;
    }
    writes
}


/// The table words and end of the table area after mapping the stacks of
/// the set-ups in turn, each as normal memory at its virtual address
/// (relative to `vb`), through the Level 1 table at `ps`, starting with the
/// table area ending at `pe`.
pub open spec fn stacks_map_spec(w: Seq<u64>, mb: int, vb: u64, ps: u64, pe: int, setups: Seq<StackSetup>) -> Option<
    (Seq<u64>, int),
>
    decreases setups.len(),
{
    if setups.len() == 0 {
        Some((w, pe))
    } else {
        match stacks_map_spec(w, mb, vb, ps, pe, setups.drop_last()) {
            None => None,
            Some(prev) => {
                let s = setups.last();
                map_spec(prev.0, mb, vb, ps, prev.1, s.virt as int, s.phys as int, s.size as int, false)
            },
        }
    }
}

/// Set-ups that can be mapped have every prefix mappable.
proof fn lemma_stacks_prefix(w: Seq<u64>, mb: int, vb: u64, ps: u64, pe: int, setups: Seq<StackSetup>, n: int)
    requires
        0 <= n <= setups.len(),
        stacks_map_spec(w, mb, vb, ps, pe, setups) is Some,
    ensures
        stacks_map_spec(w, mb, vb, ps, pe, setups.subrange(0, n)) is Some,
    decreases setups.len(),
{
    if n < setups.len() {
        assert(setups.drop_last().subrange(0, n) =~= setups.subrange(0, n));
        lemma_stacks_prefix(w, mb, vb, ps, pe, setups.drop_last(), n);
    } else {
        assert(setups.subrange(0, n) =~= setups);
    }
}

/// Maps the stacks of the set-ups (the primary core's, then the secondary
/// cores', as `init_kernel_isr_stacks` plans them) into the ISR stack area,
/// in turn, with `map_memory`. `pages_start` is the address of the kernel's
/// Level 1 table and `pages_end` the start of available memory for new
/// tables. Returns the new end of the table area.
pub fn map_stacks(virtual_base: u64, pages_start: u64, pages_end: u64, setups: &[StackSetup], mem: &mut TableMemory) -> (r: u64)
    requires
        stacks_map_spec(old(mem).words@, old(mem).base as int, virtual_base, pages_start, pages_end as int, setups@)
            is Some,
    ensures
        final(mem).base == old(mem).base,
        stacks_map_spec(old(mem).words@, old(mem).base as int, virtual_base, pages_start, pages_end as int, setups@)
            == Some((final(mem).words@, r as int)),
{
    let ghost w0 = mem.words@;
    let mut end = pages_end;
    let mut i: usize = 0;
    while i < setups.len()
        invariant
            i <= setups@.len(),
            mem.base == old(mem).base,
            stacks_map_spec(w0, mem.base as int, virtual_base, pages_start, pages_end as int, setups@) is Some,
            stacks_map_spec(w0, mem.base as int, virtual_base, pages_start, pages_end as int, setups@.subrange(0, i as int))
                == Some((mem.words@, end as int)),
        decreases setups@.len() - i,
    {
        proof {
            lemma_stacks_prefix(w0, mem.base as int, virtual_base, pages_start, pages_end as int, setups@, i as int + 1);
            assert(setups@.subrange(0, i + 1).drop_last() =~= setups@.subrange(0, i as int));
        }
        let s = setups[i];
        end = map_memory(virtual_base, pages_start, end, s.virt as u64, s.phys as u64, s.size as u64, false, mem);
        i += 1;
    }
    proof {
        assert(setups@.subrange(0, setups@.len() as int) =~= setups@);
    }
    end
}

} // verus!
