//! AArch64 peripherals management.
//!
//! The `soc` node of the device tree gives the mappings from SoC addresses to
//! ARM CPU physical addresses. The SoC address ranges are mapped from the
//! kernel's address space to the physical addresses, as device memory, so
//! that devices are reached through virtual addresses. For example, the
//! BCM2710 uses 0x7e000000 as the base address for peripherals, which the
//! Raspberry Pi 3 maps to the ARM CPU address 0x3f000000: the tables then map
//! `virtual_base + 0x7e000000` to 0x3f000000.

use vstd::prelude::*;
use crate::arch::aarch64::mm::{direct_map_memory, direct_map_spec, map_memory, map_spec, try_map_memory, TableMemory};
use crate::peripherals::soc::SocConfig;

verus! {

/// The table words and end of the table area after mapping each SoC mapping
/// in turn, as device memory, through the Level 1 table at `ps`.
pub open spec fn mappings_spec(w: Seq<u64>, mb: int, vb: u64, ps: u64, pe: int, maps: Seq<crate::peripherals::soc::SocMapping>) -> Option<
    (Seq<u64>, int),
>
    decreases maps.len(),
{
    if maps.len() == 0 {
        Some((w, pe))
    } else {
        match mappings_spec(w, mb, vb, ps, pe, maps.drop_last()) {
            None => None,
            Some(prev) => {
                let m = maps.last();
                map_spec(prev.0, mb, vb, ps, prev.1, m.soc_base as int, m.cpu_base as int, m.size as int, true)
            },
        }
    }
}

/// The peripheral mappings are made in turn: mapping `m_0 .. m_n` maps the
/// SoC addresses of `m_n` (at `virtual_base + soc_base`) to its CPU
/// addresses as device memory, into the tables left by mapping
/// `m_0 .. m_(n-1)`, starting from the table area end `pe`; with no mapping,
/// nothing is written and the end stays `pe`.
pub proof fn law_init_maps_mappings_in_turn(w: Seq<u64>, mb: int, vb: u64, ps: u64, pe: int, maps: Seq<crate::peripherals::soc::SocMapping>)
    ensures
        maps.len() == 0 ==> mappings_spec(w, mb, vb, ps, pe, maps) == Some((w, pe)),
        maps.len() > 0 ==> mappings_spec(w, mb, vb, ps, pe, maps) == match mappings_spec(
            w,
            mb,
            vb,
            ps,
            pe,
            maps.subrange(0, maps.len() - 1),
        ) {
            None => None,
            Some(prev) => map_spec(
                prev.0,
                mb,
                vb,
                ps,
                prev.1,
                maps[maps.len() - 1].soc_base as int,
                maps[maps.len() - 1].cpu_base as int,
                maps[maps.len() - 1].size as int,
                true,
            ),
        },
{
    if maps.len() > 0 {
        assert(maps.drop_last() =~= maps.subrange(0, maps.len() - 1));
    }
}

/// Every prefix of a mappable list of mappings is mappable.
proof fn lemma_prefix(w: Seq<u64>, mb: int, vb: u64, ps: u64, pe: int, maps: Seq<crate::peripherals::soc::SocMapping>, n: int)
    requires
        0 <= n <= maps.len(),
        mappings_spec(w, mb, vb, ps, pe, maps) is Some,
    ensures
        mappings_spec(w, mb, vb, ps, pe, maps.subrange(0, n)) is Some,
    decreases maps.len(),
{
    if n < maps.len() {
        assert(maps.drop_last().subrange(0, n) =~= maps.subrange(0, n));
        lemma_prefix(w, mb, vb, ps, pe, maps.drop_last(), n);
    } else {
        assert(maps.subrange(0, n) =~= maps);
    }
}

/// Initializes the peripheral mappings: maps each SoC address range to its
/// CPU physical addresses as device memory. `pages_start` is the address of
/// the kernel's Level 1 table and `pages_end` the start of available memory
/// for new tables. Returns the new end of the table area.
pub fn init(virtual_base: u64, pages_start: u64, pages_end: u64, soc_layout: &SocConfig, mem: &mut TableMemory) -> (r: u64)
    requires
        mappings_spec(old(mem).words@, old(mem).base as int, virtual_base, pages_start, pages_end as int, soc_layout@)
            is Some,
    ensures
        final(mem).base == old(mem).base,
        mappings_spec(old(mem).words@, old(mem).base as int, virtual_base, pages_start, pages_end as int, soc_layout@)
            == Some((final(mem).words@, r as int)),
{
    let maps = soc_layout.get_mappings();
    let ghost w0 = mem.words@;
    let mut end = pages_end;
    let mut i: usize = 0;
    while i < maps.len()
        invariant
            i <= maps@.len(),
            maps@ == soc_layout@,
            mem.base == old(mem).base,
            w0 == old(mem).words@,
            mappings_spec(w0, mem.base as int, virtual_base, pages_start, pages_end as int, maps@) is Some,
            mappings_spec(w0, mem.base as int, virtual_base, pages_start, pages_end as int, maps@.subrange(0, i as int))
                == Some((mem.words@, end as int)),
        decreases maps@.len() - i,
    {
        proof {
            lemma_prefix(w0, mem.base as int, virtual_base, pages_start, pages_end as int, maps@, i as int + 1);
            assert(maps@.subrange(0, i + 1).drop_last() =~= maps@.subrange(0, i as int));
        }
        let m = maps[i];
        end = map_memory(
            virtual_base,
            pages_start,
            end,
            m.soc_base as u64,
            m.cpu_base as u64,
            m.size as u64,
            true,
            mem,
        );
        i += 1;
    }
    proof {
        assert(maps@.subrange(0, maps@.len() as int) =~= maps@);
    }
    end
}

/// `init` for any SoC layout: returns `None`, exactly when some mapping
/// cannot be made (a table entry or a new table would fall outside the
/// memory, or an address would overflow), and otherwise the new end of the
/// table area. After `None` the tables may hold part of the mappings.
pub fn try_init(virtual_base: u64, pages_start: u64, pages_end: u64, soc_layout: &SocConfig, mem: &mut TableMemory) -> (r: Option<u64>)
    ensures
        final(mem).base == old(mem).base,
        r is Some <==> mappings_spec(old(mem).words@, old(mem).base as int, virtual_base, pages_start, pages_end as int, soc_layout@)
            is Some,
        r matches Some(e) ==> mappings_spec(old(mem).words@, old(mem).base as int, virtual_base, pages_start, pages_end as int, soc_layout@)
            == Some((final(mem).words@, e as int)),
{
    let maps = soc_layout.get_mappings();
    let ghost w0 = mem.words@;
    let mut end = pages_end;
    let mut i: usize = 0;
    while i < maps.len()
        invariant
            i <= maps@.len(),
            maps@ == soc_layout@,
            mem.base == old(mem).base,
            w0 == old(mem).words@,
            mappings_spec(w0, mem.base as int, virtual_base, pages_start, pages_end as int, maps@.subrange(0, i as int))
                == Some((mem.words@, end as int)),
        decreases maps@.len() - i,
    {
        proof {
            assert(maps@.subrange(0, i + 1).drop_last() =~= maps@.subrange(0, i as int));
        }
        let m = maps[i];
        match try_map_memory(
            virtual_base,
            pages_start,
            end,
            m.soc_base as u64,
            m.cpu_base as u64,
            m.size as u64,
            true,
            mem,
        ) {
            Some(e) => {
                end = e;
            },
            None => {
                proof {
                    if mappings_spec(w0, mem.base as int, virtual_base, pages_start, pages_end as int, maps@) is Some {
                        lemma_prefix(w0, mem.base as int, virtual_base, pages_start, pages_end as int, maps@, i as int + 1);
                    }
                }
                return None;
            },
        }
        i += 1;
    }
    proof {
        assert(maps@.subrange(0, maps@.len() as int) =~= maps@);
    }
    Some(end)
}

/// The table words and end of the table area after directly mapping the CPU
/// addresses of each SoC mapping in turn, as device memory, through the
/// Level 1 table at `ps`.
pub open spec fn soc_direct_spec(w: Seq<u64>, mb: int, vb: u64, ps: u64, pe: int, maps: Seq<crate::arch::arm::soc::SocMapping>) -> Option<
    (Seq<u64>, int),
>
    decreases maps.len(),
{
    if maps.len() == 0 {
        Some((w, pe))
    } else {
        match soc_direct_spec(w, mb, vb, ps, pe, maps.drop_last()) {
            None => None,
            Some(prev) => {
                let m = maps.last();
                direct_map_spec(prev.0, mb, vb, ps, prev.1, m.cpu_base as int, m.size as int, true)
            },
        }
    }
}

proof fn lemma_soc_direct_prefix(w: Seq<u64>, mb: int, vb: u64, ps: u64, pe: int, maps: Seq<crate::arch::arm::soc::SocMapping>, n: int)
    requires
        0 <= n <= maps.len(),
        soc_direct_spec(w, mb, vb, ps, pe, maps) is Some,
    ensures
        soc_direct_spec(w, mb, vb, ps, pe, maps.subrange(0, n)) is Some,
    decreases maps.len(),
{
    if n < maps.len() {
        assert(maps.drop_last().subrange(0, n) =~= maps.subrange(0, n));
        lemma_soc_direct_prefix(w, mb, vb, ps, pe, maps.drop_last(), n);
    } else {
        assert(maps.subrange(0, n) =~= maps);
    }
}

/// Maps the SoC peripherals directly into the kernel's address space: the
/// CPU addresses of each mapping, as device memory, at `virtual_base` plus
/// the CPU address. Returns the new end of the table area.
pub fn init_soc_mappings(
    virtual_base: u64,
    pages_start: u64,
    pages_end: u64,
    soc_layout: &crate::arch::arm::soc::SocConfig,
    mem: &mut TableMemory,
) -> (r: u64)
    requires
        soc_direct_spec(old(mem).words@, old(mem).base as int, virtual_base, pages_start, pages_end as int, soc_layout@)
            is Some,
    ensures
        final(mem).base == old(mem).base,
        soc_direct_spec(old(mem).words@, old(mem).base as int, virtual_base, pages_start, pages_end as int, soc_layout@)
            == Some((final(mem).words@, r as int)),
{
    let maps = soc_layout.get_mappings();
    let ghost w0 = mem.words@;
    let mut end = pages_end;
    let mut i: usize = 0;
    while i < maps.len()
        invariant
            i <= maps@.len(),
            maps@ == soc_layout@,
            mem.base == old(mem).base,
            w0 == old(mem).words@,
            soc_direct_spec(w0, mem.base as int, virtual_base, pages_start, pages_end as int, maps@) is Some,
            soc_direct_spec(w0, mem.base as int, virtual_base, pages_start, pages_end as int, maps@.subrange(0, i as int))
                == Some((mem.words@, end as int)),
        decreases maps@.len() - i,
    {
        proof {
            lemma_soc_direct_prefix(w0, mem.base as int, virtual_base, pages_start, pages_end as int, maps@, i as int + 1);
            assert(maps@.subrange(0, i + 1).drop_last() =~= maps@.subrange(0, i as int));
        }
        let m = maps[i];
        end = direct_map_memory(virtual_base, pages_start, end, m.cpu_base as u64, m.size as u64, true, mem);
        i += 1;
    }
    proof {
        assert(maps@.subrange(0, maps@.len() as int) =~= maps@);
    }
    end
}

} // verus!
