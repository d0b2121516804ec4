//! ARMv7a peripherals management.

use vstd::prelude::*;
use crate::arch::armv7::mm::{fill_spec, first_level, map_memory, TableMemory};
use crate::arch::arm::soc::SocMapping;
use crate::peripherals::soc::SocConfig;

verus! {

/// Virtual base of the area where the SoC peripherals are mapped for the
/// drivers.
pub const DRIVER_VIRTUAL_BASE: u32 = 0xf820_0000;

/// Initializes peripheral mappings. The SoC address ranges are not mapped
/// into the kernel segment here: the table area is left unchanged and its
/// end is returned.
pub fn init(virtual_base: u32, pages_start: u32, pages_end: u32, soc_layout: &SocConfig) -> (r: u32)
    ensures
        r == pages_end,
{
    pages_end
}

/// `size` rounded up to whole pages.
pub open spec fn page_round(size: int) -> int {
    ((size + 4095) / 4096) * 4096
}

/// The table words, end of the table area and next driver address after
/// mapping each SoC mapping in turn, as device memory, into the driver area
/// starting at `db`: each mapping takes whole pages. `None` when an address
/// would overflow or a table falls outside the memory.
pub open spec fn soc_fold(w: Seq<u32>, mb: int, vb: u32, ps: u32, pe: int, db: int, maps: Seq<SocMapping>) -> Option<
    (Seq<u32>, int, int),
>
    decreases maps.len(),
{
    if maps.len() == 0 {
        Some((w, pe, db))
    } else {
        match soc_fold(w, mb, vb, ps, pe, db, maps.drop_last()) {
            None => None,
            Some(prev) => {
                let m = maps.last();
                if m.cpu_base > u32::MAX || m.size + 4095 > u32::MAX || prev.2 + page_round(m.size as int)
                    > u32::MAX || prev.2 > u32::MAX {
                    None
                } else {
                    match fill_spec(
                        prev.0,
                        mb,
                        vb,
                        first_level(vb, prev.2 as u32),
                        ps as int,
                        prev.1,
                        prev.2,
                        m.cpu_base as int,
                        m.size as int,
                        true,
                    ) {
                        None => None,
                        Some(f) => Some((f.0, f.1, prev.2 + page_round(m.size as int))),
                    }
                }
            },
        }
    }
}

proof fn lemma_soc_prefix(w: Seq<u32>, mb: int, vb: u32, ps: u32, pe: int, db: int, maps: Seq<SocMapping>, n: int)
    requires
        0 <= n <= maps.len(),
        soc_fold(w, mb, vb, ps, pe, db, maps) is Some,
    ensures
        soc_fold(w, mb, vb, ps, pe, db, maps.subrange(0, n)) is Some,
    decreases maps.len(),
{
    if n < maps.len() {
        assert(maps.drop_last().subrange(0, n) =~= maps.subrange(0, n));
        lemma_soc_prefix(w, mb, vb, ps, pe, db, maps.drop_last(), n);
    } else {
        assert(maps.subrange(0, n) =~= maps);
    }
}

/// Maps the SoC peripherals into the driver area: each mapping's CPU
/// addresses are mapped as device memory at the next driver address, which
/// then advances by the mapping's size rounded up to whole pages. Returns the
/// new end of the table area.
pub fn init_soc_mappings(virtual_base: u32, pages_start: u32, pages_end: u32, soc_layout: &crate::arch::arm::soc::SocConfig, mem: &mut TableMemory) -> (r: u32)
    requires
        soc_fold(old(mem).words@, old(mem).base as int, virtual_base, pages_start, pages_end as int, DRIVER_VIRTUAL_BASE as int, soc_layout@) is Some,
    ensures
        final(mem).base == old(mem).base,
        soc_fold(old(mem).words@, old(mem).base as int, virtual_base, pages_start, pages_end as int, DRIVER_VIRTUAL_BASE as int, soc_layout@)
            matches Some(res) && res.0 == final(mem).words@ && res.1 == r,
{
    let maps = soc_layout.get_mappings();
    let ghost w0 = mem.words@;
    let mut end = pages_end;
    let mut driver_base = DRIVER_VIRTUAL_BASE;
    let mut i: usize = 0;
    while i < maps.len()
        invariant
            i <= maps@.len(),
            maps@ == soc_layout@,
            mem.base == old(mem).base,
            w0 == old(mem).words@,
            soc_fold(w0, mem.base as int, virtual_base, pages_start, pages_end as int, DRIVER_VIRTUAL_BASE as int, maps@) is Some,
            soc_fold(w0, mem.base as int, virtual_base, pages_start, pages_end as int, DRIVER_VIRTUAL_BASE as int, maps@.subrange(0, i as int))
                == Some((mem.words@, end as int, driver_base as int)),
        decreases maps@.len() - i,
    {
        proof {
            lemma_soc_prefix(w0, mem.base as int, virtual_base, pages_start, pages_end as int, DRIVER_VIRTUAL_BASE as int, maps@, i as int + 1);
            assert(maps@.subrange(0, i + 1).drop_last() =~= maps@.subrange(0, i as int));
        }
        let m = maps[i];
        end = map_memory(virtual_base, pages_start, end, driver_base, m.cpu_base as u32, m.size as u32, true, mem);
        let size = m.size as u32;
        driver_base += ((size + 4095) / 4096) * 4096;
        i += 1;
    }
    proof {
        assert(maps@.subrange(0, maps@.len() as int) =~= maps@);
    }
    end
}

} // verus!
