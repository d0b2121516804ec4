//! AArch64 translation tables.
//!
//! With 4 KiB pages, AArch64 provides four levels of translation:
//!
//! ```text
//!     Level 1   ->    Level 2   ->    Level 3   ->    Level 4
//!     Covers          Covers          Covers          Covers
//!     256 TiB         512 GiB         1 GiB           2 MiB
//! ```
//!
//! Each table is 4 KiB: 512 entries of 64 bits. A Level 2 entry can point to
//! a Level 3 table or map a 1 GiB block; a Level 3 entry can point to a Level
//! 4 table or map a 2 MiB block; a Level 4 entry maps a 4 KiB page. The Level
//! 1 table can only point to Level 2 tables.
//!
//! The tables live in physical memory, modelled here by [`TableMemory`]: the
//! words of a physical memory area. New tables are taken from the area in
//! order, starting at the current end of the table area (`pages_end`).

use vstd::prelude::*;
use crate::support::range::Range;

verus! {

/// Size of a translation table in bytes.
pub const TABLE_SIZE: u64 = 4096;

/// Page shift (4 KiB pages).
pub const PAGE_SHIFT: u64 = 12;

/// Page size.
pub const PAGE_SIZE: u64 = 4096;

/// Number of index bits per table level.
pub const INDEX_SHIFT: u64 = 9;

/// Mask of a table index.
pub const INDEX_MASK: u64 = 511;

/// Shift of the Level 1 index in a virtual address.
pub const LEVEL_1_SHIFT: u64 = 39;

/// Shift of the Level 2 index in a virtual address.
pub const LEVEL_2_SHIFT: u64 = 30;

/// Shift of the Level 3 index in a virtual address.
pub const LEVEL_3_SHIFT: u64 = 21;

/// Shift of the Level 4 index in a virtual address.
pub const LEVEL_4_SHIFT: u64 = 12;

/// Mask of the output address bits of a descriptor (48-bit, page aligned).
pub const ADDR_MASK: u64 = 0x0000_ffff_ffff_f000;

/// Descriptor type bits of a pointer to a next-level table.
pub const MM_PAGE_TABLE_FLAG: u64 = 0x3;

/// Descriptor type bits of a block descriptor.
pub const MM_BLOCK_FLAG: u64 = 0x1;

/// Descriptor type bits of a page descriptor.
pub const MM_PAGE_FLAG: u64 = 0x3;

/// Memory attribute index of normal memory.
pub const MM_NORMAL_FLAG: u64 = 0x1 << 2;

/// Memory attribute index of device memory.
pub const MM_DEVICE_FLAG: u64 = 0x0 << 2;

/// Access flag.
pub const MM_ACCESS_FLAG: u64 = 0x1 << 10;

/// Translation table level.
#[derive(Clone, Copy, PartialEq, Eq, Structural, Debug)]
pub enum TableLevel {
    Level1,
    Level2,
    Level3,
    Level4,
}

/// The number of a table level, 1 to 4.
pub open spec fn level_num(l: TableLevel) -> int {
    match l {
        TableLevel::Level1 => 1,
        TableLevel::Level2 => 2,
        TableLevel::Level3 => 3,
        TableLevel::Level4 => 4,
    }
}

/// The next level down in the translation hierarchy (Level 4 has none and
/// maps to itself).
pub open spec fn next_level(l: TableLevel) -> TableLevel {
    match l {
        TableLevel::Level1 => TableLevel::Level2,
        TableLevel::Level2 => TableLevel::Level3,
        TableLevel::Level3 => TableLevel::Level4,
        TableLevel::Level4 => TableLevel::Level4,
    }
}

/// The size in bytes covered by a single entry of a table of level `l`.
pub open spec fn entry_size(l: TableLevel) -> int {
    match l {
        TableLevel::Level1 => 0x80_0000_0000,
        TableLevel::Level2 => 0x4000_0000,
        TableLevel::Level3 => 0x20_0000,
        TableLevel::Level4 => 0x1000,
    }
}

/// The index of virtual address `va` in a table of level `l`: the 9 bits
/// of the address that the level translates.
pub open spec fn desc_index(va: u64, l: TableLevel) -> u64 {
    match l {
        TableLevel::Level1 => (va >> 39u64) & 511u64,
        TableLevel::Level2 => (va >> 30u64) & 511u64,
        TableLevel::Level3 => (va >> 21u64) & 511u64,
        TableLevel::Level4 => (va >> 12u64) & 511u64,
    }
}

/// A pointer to the next-level table at `phys_addr`.
pub open spec fn pointer_entry(phys_addr: u64) -> u64 {
    (phys_addr & ADDR_MASK) | MM_PAGE_TABLE_FLAG
}

/// The memory attribute bits for device or normal memory.
pub open spec fn attr_flag(device: bool) -> u64 {
    if device {
        MM_DEVICE_FLAG
    } else {
        MM_NORMAL_FLAG
    }
}

/// A block descriptor (Levels 2 and 3) mapping `phys_addr`.
pub open spec fn block_descriptor(phys_addr: u64, device: bool) -> u64 {
    (phys_addr & ADDR_MASK) | MM_ACCESS_FLAG | MM_BLOCK_FLAG | attr_flag(device)
}

/// A page descriptor (Level 4) mapping `phys_addr`.
pub open spec fn page_descriptor(phys_addr: u64, device: bool) -> u64 {
    (phys_addr & ADDR_MASK) | MM_ACCESS_FLAG | MM_PAGE_FLAG | attr_flag(device)
}

/// The descriptor mapping `phys_addr` in a table of level `l` (2, 3 or 4).
pub open spec fn descriptor(l: TableLevel, phys_addr: u64, device: bool) -> u64 {
    if l == TableLevel::Level4 {
        page_descriptor(phys_addr, device)
    } else {
        block_descriptor(phys_addr, device)
    }
}

/// Physical memory holding translation tables: `words[i]` is the 64-bit word
/// at physical address `base + 8 * i`.
pub struct TableMemory {
    pub base: u64,
    pub words: Vec<u64>,
}

/// The words with the table whose first word is `w[s]` cleared.
pub open spec fn zero_table(w: Seq<u64>, s: int) -> Seq<u64> {
    Seq::new(w.len(), |j: int| if s <= j < s + 512 { 0u64 } else { w[j] })
}

/// Whether a step of `fs` bytes at virtual address `va`, physical address
/// `base`, in a table of level `level` maps a whole entry with one
/// descriptor: at Level 4 always (a page), at Levels 2 and 3 when the step is
/// a whole entry and the physical address is aligned on it (a block).
pub open spec fn whole_entry(level: TableLevel, va: int, base: int, fs: int) -> bool {
    level == TableLevel::Level4 || (level != TableLevel::Level1 && va % entry_size(level) == 0 && fs == entry_size(
        level,
    ) && base % entry_size(level) == 0)
}

/// The table words after mapping `size` bytes of virtual addresses starting
/// at `virtual_base + virt` to physical addresses starting at `base`, through
/// the table of level `level` at physical address `table`, and the new end
/// of the table area (which starts at `pe`). `None` when a table entry or a
/// new table falls outside the memory or an address would overflow.
///
/// The range is walked one entry at a time: each step runs to the end of
/// the entry that holds its first address, or to the end of the range. A
/// step that maps a whole entry (see `whole_entry`) writes a block or page
/// descriptor. Any other step goes through the entry's next-level table: the
/// one the entry points to when the entry is valid, else a new, cleared table
/// at the end of the table area, which the entry then points to. Mapping
/// stops when less than a page remains.
pub open spec fn fill_spec(
    w: Seq<u64>,
    mb: int,
    vb: u64,
    level: TableLevel,
    table: int,
    pe: int,
    virt: int,
    base: int,
    size: int,
    device: bool,
) -> Option<(Seq<u64>, int)>
    decreases 4 - level_num(level), size,
{
    if size < PAGE_SIZE {
        Some((w, pe))
    } else if vb + virt > u64::MAX || table < mb || (table - mb) % 8 != 0 || virt < 0 || base < 0 {
        None
    } else {
        let va = vb + virt;
        let es = entry_size(level);
        let off = va % es;
        let fs = if size < es - off {
            size
        } else {
            es - off
        };
        let slot = (table - mb) / 8 + desc_index(va as u64, level);
        if slot >= w.len() || virt + fs > u64::MAX || base + fs > u64::MAX {
            None
        } else if whole_entry(level, va, base, fs) {
            fill_spec(
                w.update(slot, descriptor(level, base as u64, device)),
                mb,
                vb,
                level,
                table,
                pe,
                virt + fs,
                base + fs,
                size - fs,
                device,
            )
        } else {
            let desc = w[slot];
            let valid = desc & 1u64 != 0u64;
            if !valid && (pe + TABLE_SIZE > u64::MAX || pe < mb || (pe - mb) % 8 != 0 || (pe - mb) / 8 + 512 > w.len()) {
                None
            } else {
                let next = if valid {
                    (desc & ADDR_MASK) as int
                } else {
                    pe
                };
                let pe1 = if valid {
                    pe
                } else {
                    pe + TABLE_SIZE
                };
                let w0 = if valid {
                    w
                } else {
                    zero_table(w, (pe - mb) / 8)
                };
                let desc1 = if valid {
                    desc
                } else {
                    pointer_entry(pe as u64)
                };
                match fill_spec(w0, mb, vb, next_level(level), next, pe1, virt, base, fs, device) {
                    None => None,
                    Some(inner) => fill_spec(
                        inner.0.update(slot, desc1),
                        mb,
                        vb,
                        level,
                        table,
                        inner.1,
                        virt + fs,
                        base + fs,
                        size - fs,
                        device,
                    ),
                }
            }
        }
    }
}

/// Given a table level, returns the next table level down in the translation
/// hierarchy, or `None` for Level 4.
pub fn get_next_table(table_level: TableLevel) -> (r: Option<TableLevel>)
    ensures
        r == (if table_level == TableLevel::Level4 {
            None
        } else {
            Some(next_level(table_level))
        }),
{
    match table_level {
        TableLevel::Level1 => Some(TableLevel::Level2),
        TableLevel::Level2 => Some(TableLevel::Level3),
        TableLevel::Level3 => Some(TableLevel::Level4),
        TableLevel::Level4 => None,
    }
}

/// Given a table level, returns the size covered by a single entry in bytes.
pub fn get_table_entry_size(table_level: TableLevel) -> (r: u64)
    ensures
        r == entry_size(table_level),
{
    proof {
        lemma_entry_sizes();
    }
    match table_level {
        TableLevel::Level1 => 1u64 << LEVEL_1_SHIFT,
        TableLevel::Level2 => 1u64 << LEVEL_2_SHIFT,
        TableLevel::Level3 => 1u64 << LEVEL_3_SHIFT,
        TableLevel::Level4 => 1u64 << LEVEL_4_SHIFT,
    }
}

/// Gets the descriptor index for a virtual address in a table of the given
/// level. The table indices are 9 bits each, starting with Level 4 at bit 12.
///
/// ```text
///     +---------+----+----+----+----+--------+
///     | / / / / | L1 | L2 | L3 | L4 | Offset |
///     +---------+----+----+----+----+--------+
///     63       47   39   30   21   12        0
/// ```
pub fn get_descriptor_index(virt_addr: u64, table_level: TableLevel) -> (r: u64)
    ensures
        r == desc_index(virt_addr, table_level),
        r < 512,
{
    proof {
        lemma_index_bound(virt_addr);
    }
    match table_level {
        TableLevel::Level1 => (virt_addr >> LEVEL_1_SHIFT) & INDEX_MASK,
        TableLevel::Level2 => (virt_addr >> LEVEL_2_SHIFT) & INDEX_MASK,
        TableLevel::Level3 => (virt_addr >> LEVEL_3_SHIFT) & INDEX_MASK,
        TableLevel::Level4 => (virt_addr >> LEVEL_4_SHIFT) & INDEX_MASK,
    }
}

proof fn lemma_entry_sizes()
    by (bit_vector)
    ensures
        1u64 << 39u64 == 0x80_0000_0000u64,
        1u64 << 30u64 == 0x4000_0000u64,
        1u64 << 21u64 == 0x20_0000u64,
        1u64 << 12u64 == 0x1000u64,
{
}

proof fn lemma_index_bound(va: u64)
    by (bit_vector)
    ensures
        (va >> 39u64) & 511u64 < 512,
        (va >> 30u64) & 511u64 < 512,
        (va >> 21u64) & 511u64 < 512,
        (va >> 12u64) & 511u64 < 512,
{
}

/// Checks if a descriptor is valid. Bit 0 is the validity marker.
pub fn is_descriptor_valid(desc: u64) -> (r: bool)
    ensures
        r == (desc & 1u64 != 0u64),
{
    (desc & 0x1) != 0
}

/// Gets the physical address of the next table or memory block from a
/// descriptor.
pub fn get_phys_addr_from_descriptor(desc: u64) -> (r: u64)
    ensures
        r == desc & ADDR_MASK,
{
    desc & ADDR_MASK
}

/// Maps a block of physical memory (Level 2 or 3).
pub fn make_block_descriptor(phys_addr: u64, device: bool) -> (r: u64)
    ensures
        r == block_descriptor(phys_addr, device),
{
    let entry = (phys_addr & ADDR_MASK) | MM_ACCESS_FLAG | MM_BLOCK_FLAG;
    if device {
        entry | MM_DEVICE_FLAG
    } else {
        entry | MM_NORMAL_FLAG
    }
}

/// Maps a page of physical memory (Level 4).
pub fn make_page_descriptor(phys_addr: u64, device: bool) -> (r: u64)
    ensures
        r == page_descriptor(phys_addr, device),
{
    let entry = (phys_addr & ADDR_MASK) | MM_ACCESS_FLAG | MM_PAGE_FLAG;
    if device {
        entry | MM_DEVICE_FLAG
    } else {
        entry | MM_NORMAL_FLAG
    }
}

/// Makes a pointer entry to a lower level table.
pub fn make_pointer_entry(phys_addr: u64) -> (r: u64)
    ensures
        r == pointer_entry(phys_addr),
{
    (phys_addr & ADDR_MASK) | MM_PAGE_TABLE_FLAG
}

/// Creates a descriptor appropriate to the table level, which must be 2, 3 or
/// 4: the Level 1 table can only point to Level 2 tables.
pub fn make_descriptor(table_level: TableLevel, phys_addr: u64, device: bool) -> (r: u64)
    requires
        table_level != TableLevel::Level1,
    ensures
        r == descriptor(table_level, phys_addr, device),
{
    match table_level {
        TableLevel::Level4 => make_page_descriptor(phys_addr, device),
        _ => make_block_descriptor(phys_addr, device),
    }
}

/// The arguments of the next-level fill made for an entry holding `desc`:
/// the next table (the one `desc` points to when valid, else a new one at
/// `pages_end`), the end of the table area after the allocation, and the
/// words with the new table cleared.
pub open spec fn next_table_of(w: Seq<u64>, mb: int, desc: u64, pages_end: u64) -> (int, int, Seq<u64>) {
    if desc & 1u64 != 0u64 {
        ((desc & ADDR_MASK) as int, pages_end as int, w)
    } else {
        (pages_end as int, pages_end + TABLE_SIZE, zero_table(w, (pages_end - mb) / 8))
    }
}

/// Whether a new table fits at `pages_end`: within the memory and the
/// address space.
pub open spec fn new_table_fits(w: Seq<u64>, mb: int, pages_end: int) -> bool {
    &&& pages_end + TABLE_SIZE <= u64::MAX
    &&& pages_end >= mb
    &&& (pages_end - mb) % 8 == 0
    &&& (pages_end - mb) / 8 + 512 <= w.len()
}

/// Allocates a new, cleared table if the descriptor is invalid, then fills
/// the next level table with entries for the range.
///
/// Returns the descriptor for the current table entry and the new end of the
/// table area; `None` when a new table or a next-level entry would fall
/// outside the memory, or an address would overflow (see `fill_spec`).
fn alloc_table_and_fill(
    virtual_base: u64,
    table_level: TableLevel,
    desc: u64,
    pages_end: u64,
    virt: u64,
    base: u64,
    size: u64,
    device: bool,
    mem: &mut TableMemory,
) -> (r: Option<(u64, u64)>)
    requires
        table_level != TableLevel::Level4,
    ensures
        final(mem).base == old(mem).base,
        final(mem).words@.len() == old(mem).words@.len(),
        r is Some <==> (desc & 1u64 != 0u64 || new_table_fits(old(mem).words@, old(mem).base as int, pages_end as int))
            && fill_spec(
            next_table_of(old(mem).words@, old(mem).base as int, desc, pages_end).2,
            old(mem).base as int,
            virtual_base,
            next_level(table_level),
            next_table_of(old(mem).words@, old(mem).base as int, desc, pages_end).0,
            next_table_of(old(mem).words@, old(mem).base as int, desc, pages_end).1,
            virt as int,
            base as int,
            size as int,
            device,
        ) is Some,
        r matches Some(v) ==> {
            &&& v.0 == (if desc & 1u64 != 0u64 {
                desc
            } else {
                pointer_entry(pages_end)
            })
            &&& fill_spec(
                next_table_of(old(mem).words@, old(mem).base as int, desc, pages_end).2,
                old(mem).base as int,
                virtual_base,
                next_level(table_level),
                next_table_of(old(mem).words@, old(mem).base as int, desc, pages_end).0,
                next_table_of(old(mem).words@, old(mem).base as int, desc, pages_end).1,
                virt as int,
                base as int,
                size as int,
                device,
            ) == Some((final(mem).words@, v.1 as int))
        },
    decreases 4 - level_num(table_level), 0int,
{
    let next_level = get_next_table(table_level).unwrap();
    let mut next_addr = get_phys_addr_from_descriptor(desc);
    let mut desc = desc;
    let mut pages_end = pages_end;

    if !is_descriptor_valid(desc) {
        // Take a new table from the end of the table area and clear it.
        if pages_end > u64::MAX - TABLE_SIZE || pages_end < mem.base || (pages_end - mem.base) % 8 != 0 {
            return None;
        }
        let x = (pages_end - mem.base) / 8;
        let wl = mem.words.len();
        if x > wl as u64 || wl as u64 - x < 512 {
            return None;
        }
        next_addr = pages_end;
        let ghost w0 = mem.words@;
        let start = x as usize;
        proof {
            assert(start as int == (pages_end - mem.base) / 8);
        }
        let mut k: usize = 0;
        while k < 512
            invariant
                k <= 512,
                start + 512 <= mem.words@.len(),
                wl == mem.words@.len(),
                mem.base == old(mem).base,
                mem.words@.len() == w0.len(),
                w0 == old(mem).words@,
                forall|j: int| 0 <= j < mem.words@.len() ==> #[trigger] mem.words@[j] == (if start <= j < start + k {
                    0u64
                } else {
                    w0[j]
                }),
            decreases 512 - k,
        {
            mem.words.set(start + k, 0);
            k += 1;
        }
        proof {
            assert(mem.words@ =~= zero_table(w0, start as int));
        }
        pages_end += TABLE_SIZE;
        desc = make_pointer_entry(next_addr);
    }
    match fill_table(virtual_base, next_level, next_addr, pages_end, virt, base, size, device, mem) {
        Some(end) => Some((desc, end)),
        None => None,
    }
}

/// Fills a translation table with entries for the range of `size` bytes of
/// virtual addresses at `virtual_base + virt` mapped to physical addresses
/// at `base`, one entry at a time (see `fill_spec`).
///
/// 1. A step that covers a whole entry of a Level 2 or Level 3 table, from a
///    physical address aligned on the entry, maps a block, keeping the tables
///    compact with as few translation steps as necessary; at Level 4 a step
///    maps a page.
/// 2. Any other step goes through the entry's next-level table: the table
///    the entry points to when the entry is valid, else a new, cleared table
///    at `pages_end`, which advances by a table.
///
/// Mapping stops when less than a page remains. Returns the new end of the
/// table area, or `None`, exactly when `fill_spec` is `None`: a table entry
/// or a new table would fall outside the memory, or an address would
/// overflow. After `None` the tables may hold part of the mapping.
fn fill_table(
    virtual_base: u64,
    table_level: TableLevel,
    table_addr: u64,
    pages_end: u64,
    virt: u64,
    base: u64,
    size: u64,
    device: bool,
    mem: &mut TableMemory,
) -> (r: Option<u64>)
    ensures
        final(mem).base == old(mem).base,
        final(mem).words@.len() == old(mem).words@.len(),
        r is Some <==> fill_spec(
            old(mem).words@,
            old(mem).base as int,
            virtual_base,
            table_level,
            table_addr as int,
            pages_end as int,
            virt as int,
            base as int,
            size as int,
            device,
        ) is Some,
        r matches Some(e) ==> fill_spec(
            old(mem).words@,
            old(mem).base as int,
            virtual_base,
            table_level,
            table_addr as int,
            pages_end as int,
            virt as int,
            base as int,
            size as int,
            device,
        ) == Some((final(mem).words@, e as int)),
    decreases 4 - level_num(table_level), 1int,
{
    let ghost target = fill_spec(
        mem.words@,
        mem.base as int,
        virtual_base,
        table_level,
        table_addr as int,
        pages_end as int,
        virt as int,
        base as int,
        size as int,
        device,
    );
    let esize = get_table_entry_size(table_level);
    let mut cur_virt = virt;
    let mut cur_base = base;
    let mut cur_size = size;
    let mut cur_end = pages_end;
    proof {
        assert(target == fill_spec(
            old(mem).words@,
            old(mem).base as int,
            virtual_base,
            table_level,
            table_addr as int,
            pages_end as int,
            virt as int,
            base as int,
            size as int,
            device,
        ));
    }

    while cur_size >= PAGE_SIZE
        invariant
            mem.base == old(mem).base,
            mem.words@.len() == old(mem).words@.len(),
            esize == entry_size(table_level),
            target == fill_spec(
                old(mem).words@,
                old(mem).base as int,
                virtual_base,
                table_level,
                table_addr as int,
                pages_end as int,
                virt as int,
                base as int,
                size as int,
                device,
            ),
            fill_spec(
                mem.words@,
                mem.base as int,
                virtual_base,
                table_level,
                table_addr as int,
                cur_end as int,
                cur_virt as int,
                cur_base as int,
                cur_size as int,
                device,
            ) == target,
        decreases cur_size,
    {
        if cur_virt > u64::MAX - virtual_base || table_addr < mem.base || (table_addr - mem.base) % 8 != 0 {
            assert(fill_spec(
                mem.words@,
                mem.base as int,
                virtual_base,
                table_level,
                table_addr as int,
                cur_end as int,
                cur_virt as int,
                cur_base as int,
                cur_size as int,
                device,
            ) is None);
            return None;
        }
        let va = virtual_base + cur_virt;
        let idx = get_descriptor_index(va, table_level);
        let q = (table_addr - mem.base) / 8;
        let wlen = mem.words.len();
        if q >= wlen as u64 || wlen as u64 - q <= idx {
            return None;
        }
        let off = q + idx;
        proof {
            assert(off == (table_addr - mem.base) / 8 + desc_index((virtual_base + cur_virt) as u64, table_level));
        }
        let slot = off as usize;
        let ghost w0 = mem.words@;
        // The step runs to the end of the entry, or of the range.
        let in_entry = va % esize;
        let fill_size = if cur_size < esize - in_entry {
            cur_size
        } else {
            esize - in_entry
        };
        if cur_virt > u64::MAX - fill_size || cur_base > u64::MAX - fill_size {
            return None;
        }
        let whole = match table_level {
            TableLevel::Level4 => true,
            TableLevel::Level1 => false,
            _ => in_entry == 0 && fill_size == esize && cur_base % esize == 0,
        };
        if whole {
            // A whole entry maps a block or a page.
            let d = make_descriptor(table_level, cur_base, device);
            mem.words.set(slot, d);
        } else {
            let cur = mem.words[slot];
            proof {
                assert(cur == w0[off as int]);
            }
            match alloc_table_and_fill(
                virtual_base,
                table_level,
                cur,
                cur_end,
                cur_virt,
                cur_base,
                fill_size,
                device,
                mem,
            ) {
                Some((d, e)) => {
                    mem.words.set(slot, d);
                    cur_end = e;
                },
                None => {
                    return None;
                },
            }
        }
        cur_virt += fill_size;
        cur_base += fill_size;
        cur_size -= fill_size;
    }
    Some(cur_end)
}

/// The table words and end of the table area after `map_memory`: `size`
/// bytes of physical addresses from `base` mapped at virtual addresses from
/// `virtual_base + virt`, through the Level 1 table at `ps`.
pub open spec fn map_spec(w: Seq<u64>, mb: int, vb: u64, ps: u64, pe: int, virt: int, base: int, size: int, device: bool) -> Option<
    (Seq<u64>, int),
> {
    fill_spec(w, mb, vb, TableLevel::Level1, ps as int, pe, virt, base, size, device)
}

/// The table words and end of the table area after `direct_map_memory`:
/// `size` bytes of physical addresses from `base` mapped at virtual
/// addresses from `virtual_base + base`, through the Level 1 table at `ps`.
pub open spec fn direct_map_spec(w: Seq<u64>, mb: int, vb: u64, ps: u64, pe: int, base: int, size: int, device: bool) -> Option<
    (Seq<u64>, int),
> {
    fill_spec(w, mb, vb, TableLevel::Level1, ps as int, pe, base, base, size, device)
}

/// A direct map is the map of a range at the virtual offset of its physical
/// base: `direct_map_memory` returns the same value and makes the same table
/// writes as `map_memory` with `virt == base`.
pub proof fn law_direct_map_is_map_at_base(w: Seq<u64>, mb: int, vb: u64, ps: u64, pe: int, base: int, size: int, device: bool)
    ensures
        direct_map_spec(w, mb, vb, ps, pe, base, size, device) == map_spec(w, mb, vb, ps, pe, base, base, size, device),
{
}

/// The table words and end of the table area after directly mapping each of
/// the physical ranges in turn, as normal memory, through the Level 1 table
/// at `ps`, starting with the table area ending at `pe`.
pub open spec fn init_spec(w: Seq<u64>, mb: int, vb: u64, ps: u64, pe: int, ranges: Seq<Range>) -> Option<
    (Seq<u64>, int),
>
    decreases ranges.len(),
{
    if ranges.len() == 0 {
        Some((w, pe))
    } else {
        match init_spec(w, mb, vb, ps, pe, ranges.drop_last()) {
            None => None,
            Some(prev) => {
                let r = ranges.last();
                direct_map_spec(prev.0, mb, vb, ps, prev.1, r.base as int, r.size as int, false)
            },
        }
    }
}

/// Initializes the kernel's translation tables: directly maps each physical
/// memory range of the layout into the kernel's virtual address space.
///
/// `pages_start` is the address of the kernel's Level 1 table and
/// `pages_end` the start of available memory for new tables. Returns the new
/// end of the table area.
pub fn init(virtual_base: u64, pages_start: u64, pages_end: u64, mem_layout: &[Range], mem: &mut TableMemory) -> (r: u64)
    requires
        init_spec(old(mem).words@, old(mem).base as int, virtual_base, pages_start, pages_end as int, mem_layout@)
            is Some,
    ensures
        final(mem).base == old(mem).base,
        init_spec(old(mem).words@, old(mem).base as int, virtual_base, pages_start, pages_end as int, mem_layout@)
            == Some((final(mem).words@, r as int)),
{
    let ghost w0 = mem.words@;
    let mut pages_end_now = pages_end;
    let mut i: usize = 0;
    while i < mem_layout.len()
        invariant
            i <= mem_layout@.len(),
            mem.base == old(mem).base,
            init_spec(w0, mem.base as int, virtual_base, pages_start, pages_end as int, mem_layout@) is Some,
            init_spec(w0, mem.base as int, virtual_base, pages_start, pages_end as int, mem_layout@.subrange(0, i as int))
                == Some((mem.words@, pages_end_now as int)),
        decreases mem_layout@.len() - i,
    {
        proof {
            lemma_init_prefix(w0, mem.base as int, virtual_base, pages_start, pages_end as int, mem_layout@, i as int + 1);
            assert(mem_layout@.subrange(0, i + 1).drop_last() =~= mem_layout@.subrange(0, i as int));
        }
        let range = mem_layout[i];
        pages_end_now = direct_map_memory(
            virtual_base,
            pages_start,
            pages_end_now,
            range.base as u64,
            range.size as u64,
            false,
            mem,
        );
        i += 1;
    }
    proof {
        assert(mem_layout@.subrange(0, mem_layout@.len() as int) =~= mem_layout@);
    }
    pages_end_now
}

/// `init` for any layout: returns `None`, exactly when some range cannot be
/// mapped (a table entry or a new table would fall outside the memory, or an
/// address would overflow), and otherwise the new end of the table area.
/// After `None` the tables may hold part of the mappings.
pub fn try_init(virtual_base: u64, pages_start: u64, pages_end: u64, mem_layout: &[Range], mem: &mut TableMemory) -> (r: Option<u64>)
    ensures
        final(mem).base == old(mem).base,
        r is Some <==> init_spec(old(mem).words@, old(mem).base as int, virtual_base, pages_start, pages_end as int, mem_layout@)
            is Some,
        r matches Some(e) ==> init_spec(old(mem).words@, old(mem).base as int, virtual_base, pages_start, pages_end as int, mem_layout@)
            == Some((final(mem).words@, e as int)),
{
    let ghost w0 = mem.words@;
    let mut pages_end_now = pages_end;
    let mut i: usize = 0;
    while i < mem_layout.len()
        invariant
            i <= mem_layout@.len(),
            mem.base == old(mem).base,
            w0 == old(mem).words@,
            init_spec(w0, mem.base as int, virtual_base, pages_start, pages_end as int, mem_layout@.subrange(0, i as int))
                == Some((mem.words@, pages_end_now as int)),
        decreases mem_layout@.len() - i,
    {
        proof {
            assert(mem_layout@.subrange(0, i + 1).drop_last() =~= mem_layout@.subrange(0, i as int));
        }
        let range = mem_layout[i];
        match try_direct_map_memory(
            virtual_base,
            pages_start,
            pages_end_now,
            range.base as u64,
            range.size as u64,
            false,
            mem,
        ) {
            Some(e) => {
                pages_end_now = e;
            },
            None => {
                proof {
                    if init_spec(w0, mem.base as int, virtual_base, pages_start, pages_end as int, mem_layout@) is Some {
                        lemma_init_prefix(w0, mem.base as int, virtual_base, pages_start, pages_end as int, mem_layout@, i as int + 1);
                    }
                }
                return None;
            },
        }
        i += 1;
    }
    proof {
        assert(mem_layout@.subrange(0, mem_layout@.len() as int) =~= mem_layout@);
    }
    Some(pages_end_now)
}

/// Initialization maps the ranges of the layout in turn: mapping the ranges
/// `r_0 .. r_n` directly maps `r_n` into the tables left by mapping
/// `r_0 .. r_(n-1)`, starting from the table area end `pe`; with no range,
/// nothing is written and the end stays `pe`.
pub proof fn law_init_maps_ranges_in_turn(w: Seq<u64>, mb: int, vb: u64, ps: u64, pe: int, ranges: Seq<Range>)
    ensures
        ranges.len() == 0 ==> init_spec(w, mb, vb, ps, pe, ranges) == Some((w, pe)),
        ranges.len() > 0 ==> init_spec(w, mb, vb, ps, pe, ranges) == match init_spec(
            w,
            mb,
            vb,
            ps,
            pe,
            ranges.subrange(0, ranges.len() - 1),
        ) {
            None => None,
            Some(prev) => direct_map_spec(
                prev.0,
                mb,
                vb,
                ps,
                prev.1,
                ranges[ranges.len() - 1].base as int,
                ranges[ranges.len() - 1].size as int,
                false,
            ),
        },
{
    if ranges.len() > 0 {
        assert(ranges.drop_last() =~= ranges.subrange(0, ranges.len() - 1));
    }
}

/// A layout that can be mapped has every prefix mappable.
proof fn lemma_init_prefix(w: Seq<u64>, mb: int, vb: u64, ps: u64, pe: int, ranges: Seq<Range>, n: int)
    requires
        0 <= n <= ranges.len(),
        init_spec(w, mb, vb, ps, pe, ranges) is Some,
    ensures
        init_spec(w, mb, vb, ps, pe, ranges.subrange(0, n)) is Some,
    decreases ranges.len(),
{
    if n < ranges.len() {
        assert(ranges.drop_last().subrange(0, n) =~= ranges.subrange(0, n));
        lemma_init_prefix(w, mb, vb, ps, pe, ranges.drop_last(), n);
    } else {
        assert(ranges.subrange(0, n) =~= ranges);
    }
}

/// Directly maps a physical memory range into the kernel's virtual address
/// space: physical address `a` maps to virtual address `virtual_base + a`.
///
/// `pages_start` is the address of the kernel's Level 1 table and
/// `pages_end` the start of available memory for new tables. Returns the new
/// end of the table area.
pub fn direct_map_memory(
    virtual_base: u64,
    pages_start: u64,
    pages_end: u64,
    base: u64,
    size: u64,
    device: bool,
    mem: &mut TableMemory,
) -> (r: u64)
    requires
        direct_map_spec(
            old(mem).words@,
            old(mem).base as int,
            virtual_base,
            pages_start,
            pages_end as int,
            base as int,
            size as int,
            device,
        ) is Some,
    ensures
        final(mem).base == old(mem).base,
        direct_map_spec(
            old(mem).words@,
            old(mem).base as int,
            virtual_base,
            pages_start,
            pages_end as int,
            base as int,
            size as int,
            device,
        ) == Some((final(mem).words@, r as int)),
        map_spec(
            old(mem).words@,
            old(mem).base as int,
            virtual_base,
            pages_start,
            pages_end as int,
            base as int,
            base as int,
            size as int,
            device,
        ) == Some((final(mem).words@, r as int)),
{
    proof {
        law_direct_map_is_map_at_base(
            mem.words@,
            mem.base as int,
            virtual_base,
            pages_start,
            pages_end as int,
            base as int,
            size as int,
            device,
        );
    }
    fill_table(virtual_base, TableLevel::Level1, pages_start, pages_end, base, base, size, device, mem).unwrap()
}

/// `direct_map_memory` for any input: returns `None`, exactly when the map
/// cannot be made (a table entry or a new table would fall outside the
/// memory, or an address would overflow), and otherwise the new end of the
/// table area. After `None` the tables may hold part of the mapping.
pub fn try_direct_map_memory(
    virtual_base: u64,
    pages_start: u64,
    pages_end: u64,
    base: u64,
    size: u64,
    device: bool,
    mem: &mut TableMemory,
) -> (r: Option<u64>)
    ensures
        final(mem).base == old(mem).base,
        r is Some <==> direct_map_spec(
            old(mem).words@,
            old(mem).base as int,
            virtual_base,
            pages_start,
            pages_end as int,
            base as int,
            size as int,
            device,
        ) is Some,
        r matches Some(e) ==> direct_map_spec(
            old(mem).words@,
            old(mem).base as int,
            virtual_base,
            pages_start,
            pages_end as int,
            base as int,
            size as int,
            device,
        ) == Some((final(mem).words@, e as int)),
{
    fill_table(virtual_base, TableLevel::Level1, pages_start, pages_end, base, base, size, device, mem)
}

/// `map_memory` for any input: returns `None`, exactly when the map cannot
/// be made (a table entry or a new table would fall outside the memory, or
/// an address would overflow), and otherwise the new end of the table area.
/// After `None` the tables may hold part of the mapping.
pub fn try_map_memory(
    virtual_base: u64,
    pages_start: u64,
    pages_end: u64,
    virt: u64,
    base: u64,
    size: u64,
    device: bool,
    mem: &mut TableMemory,
) -> (r: Option<u64>)
    ensures
        final(mem).base == old(mem).base,
        r is Some <==> map_spec(
            old(mem).words@,
            old(mem).base as int,
            virtual_base,
            pages_start,
            pages_end as int,
            virt as int,
            base as int,
            size as int,
            device,
        ) is Some,
        r matches Some(e) ==> map_spec(
            old(mem).words@,
            old(mem).base as int,
            virtual_base,
            pages_start,
            pages_end as int,
            virt as int,
            base as int,
            size as int,
            device,
        ) == Some((final(mem).words@, e as int)),
{
    fill_table(virtual_base, TableLevel::Level1, pages_start, pages_end, virt, base, size, device, mem)
}

/// Maps a range of physical addresses into the kernel's virtual address
/// space, generalizing `direct_map_memory` to `virt != base`: physical
/// address `a` maps to virtual address `virtual_base + (a - base + virt)`.
///
/// Returns the new end of the table area.
pub fn map_memory(
    virtual_base: u64,
    pages_start: u64,
    pages_end: u64,
    virt: u64,
    base: u64,
    size: u64,
    device: bool,
    mem: &mut TableMemory,
) -> (r: u64)
    requires
        map_spec(
            old(mem).words@,
            old(mem).base as int,
            virtual_base,
            pages_start,
            pages_end as int,
            virt as int,
            base as int,
            size as int,
            device,
        ) is Some,
    ensures
        final(mem).base == old(mem).base,
        map_spec(
            old(mem).words@,
            old(mem).base as int,
            virtual_base,
            pages_start,
            pages_end as int,
            virt as int,
            base as int,
            size as int,
            device,
        ) == Some((final(mem).words@, r as int)),
{
    fill_table(virtual_base, TableLevel::Level1, pages_start, pages_end, virt, base, size, device, mem).unwrap()
}

} // verus!
