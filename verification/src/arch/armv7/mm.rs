//! ARMv7a translation tables with the Large Physical Address Extensions.
//!
//! With LPAE the MMU uses three levels of translation with 64-bit
//! descriptors:
//!
//! ```text
//!     Level 1       ->  Level 2       -> Level 3
//!     4 Entries         512 Entries      512 Entries
//!     Covers 4 GiB      Covers 1 GiB     Covers 2 MiB
//! ```
//!
//! Every table takes a whole 4 KiB page. A descriptor is a pair of 32-bit
//! words, low then high; the high words are always written as 0 (40-bit
//! output addresses are not used). The MMU skips Level 1 translation for a
//! segment of 1 GiB or less: with a 3/1 split the kernel segment starts at its
//! Level 2 table.
//!
//! The tables live in physical memory, modelled by [`TableMemory`]: the
//! 32-bit words of a physical memory area. New tables are taken from the area
//! in order, starting at the current end of the table area, and are zeroed.

use vstd::prelude::*;

verus! {

/// Page size (4 KiB pages).
pub const PAGE_SIZE: u32 = 4096;

/// Shift of the Level 1 index in a virtual address.
pub const LEVEL_1_SHIFT_LONG: u32 = 30;

/// Shift of the Level 2 index in a virtual address.
pub const LEVEL_2_SHIFT_LONG: u32 = 21;

/// Shift of the Level 3 index in a virtual address.
pub const LEVEL_3_SHIFT_LONG: u32 = 12;

/// Mask of a Level 2 or Level 3 index.
pub const INDEX_MASK_LONG: u32 = 511;

/// Size of every table in bytes (the Level 1 table only uses 4 entries).
pub const TABLE_SIZE_LONG: u32 = 512 * 8;

/// Number of 32-bit words in a table.
pub const TABLE_WORDS: u32 = 1024;

/// Mask of the output address bits of a descriptor's low word.
pub const ADDR_MASK_LONG: u32 = 0xffff_f000;

/// Descriptor type bits of a pointer to a next-level table.
pub const MM_PAGE_TABLE_FLAG_LONG: u32 = 0x3;

/// Descriptor type bits of a block descriptor.
pub const MM_BLOCK_FLAG_LONG: u32 = 0x1;

/// Descriptor type bits of a page descriptor.
pub const MM_PAGE_FLAG_LONG: u32 = 0x3;

/// Access flag.
pub const MM_ACCESS_FLAG_LONG: u32 = 0x1 << 10;

/// Memory attribute index of normal memory.
pub const MM_NORMAL_MAIR_IDX_LONG: u32 = 0x0 << 2;

/// Memory attribute index of device memory.
pub const MM_DEVICE_MAIR_IDX_LONG: u32 = 0x1 << 2;

/// Mask of the descriptor type bits.
pub const TYPE_MASK: u32 = 0x3;

/// Physical start address of the high memory area.
pub const HIGH_MEMORY: u32 = 0x3800_0000;

/// Translation table level. LPAE supports up to 3 levels of translation.
#[derive(Clone, Copy, PartialEq, Eq, Structural, Debug)]
pub enum TableLevel {
    Level1,
    Level2,
    Level3,
}

/// The number of a table level, 1 to 3.
pub open spec fn level_num(l: TableLevel) -> int {
    match l {
        TableLevel::Level1 => 1,
        TableLevel::Level2 => 2,
        TableLevel::Level3 => 3,
    }
}

/// The next level down (Level 3 has none and maps to itself).
pub open spec fn next_level(l: TableLevel) -> TableLevel {
    match l {
        TableLevel::Level1 => TableLevel::Level2,
        TableLevel::Level2 => TableLevel::Level3,
        TableLevel::Level3 => TableLevel::Level3,
    }
}

/// The size in bytes covered by a single entry of a table of level `l`.
pub open spec fn entry_size(l: TableLevel) -> int {
    match l {
        TableLevel::Level1 => 0x4000_0000,
        TableLevel::Level2 => 0x20_0000,
        TableLevel::Level3 => 0x1000,
    }
}

/// The first table level translating `virt_addr`: Level 2 for an address in
/// the kernel segment when the segment is smaller than 1 GiB (3/1 split),
/// else Level 1.
pub open spec fn first_level(virtual_base: u32, virt_addr: u32) -> TableLevel {
    if virt_addr & virtual_base == virtual_base && 0xffff_ffffu32 - virtual_base < 0x4000_0000 {
        TableLevel::Level2
    } else {
        TableLevel::Level1
    }
}

/// The word index of the low word of the descriptor for `virt_addr` in a
/// table of level `l`. At Level 1 the index uses one bit in a 2/2 kernel
/// segment (`virtual_base == 0x8000_0000`) and two bits otherwise.
pub open spec fn desc_index(virtual_base: u32, virt_addr: u32, l: TableLevel) -> u32 {
    match l {
        TableLevel::Level1 => {
            let mask: u32 = if virt_addr & virtual_base == virtual_base && virtual_base == 0x8000_0000u32 {
                1
            } else {
                3
            };
            ((virt_addr >> 30u32) & mask) << 1u32
        },
        TableLevel::Level2 => ((virt_addr >> 21u32) & 511u32) << 1u32,
        TableLevel::Level3 => ((virt_addr >> 12u32) & 511u32) << 1u32,
    }
}

/// The memory attribute index for device or normal memory.
pub open spec fn mair_idx(device: bool) -> u32 {
    if device {
        MM_DEVICE_MAIR_IDX_LONG
    } else {
        MM_NORMAL_MAIR_IDX_LONG
    }
}

/// The low word of a descriptor mapping `phys_addr` at Level 2 (a block) or
/// Level 3 (a page).
pub open spec fn descriptor(l: TableLevel, phys_addr: u32, device: bool) -> u32 {
    if l == TableLevel::Level2 {
        phys_addr | mair_idx(device) | MM_ACCESS_FLAG_LONG | MM_BLOCK_FLAG_LONG
    } else {
        phys_addr | mair_idx(device) | MM_ACCESS_FLAG_LONG | MM_PAGE_FLAG_LONG
    }
}

/// The low word of a pointer to the next-level table at `phys_addr`.
pub open spec fn pointer_entry(phys_addr: u32) -> u32 {
    (phys_addr & ADDR_MASK_LONG) | MM_PAGE_TABLE_FLAG_LONG
}

/// Whether a descriptor's low word points to a next-level table.
pub open spec fn is_pointer(desc: u32) -> bool {
    desc & TYPE_MASK == MM_PAGE_TABLE_FLAG_LONG
}

/// Physical memory holding translation tables: `words[i]` is the 32-bit word
/// at physical address `base + 4 * i`.
pub struct TableMemory {
    pub base: u32,
    pub words: Vec<u32>,
}

/// The words with the table starting at word `start` zeroed.
pub open spec fn zero_table(w: Seq<u32>, start: int) -> Seq<u32> {
    Seq::new(w.len(), |i: int| if start <= i < start + TABLE_WORDS { 0u32 } else { w[i] })
}

/// Whether a step of `fs` bytes at virtual address `virt`, physical address
/// `base`, in a table of level `level` maps a whole entry with one
/// descriptor: at Level 3 always (a page), at Level 2 when the step is a
/// whole entry and the physical address is aligned on it (a block).
pub open spec fn whole_entry(level: TableLevel, virt: int, base: int, fs: int) -> bool {
    level == TableLevel::Level3 || (level == TableLevel::Level2 && virt % entry_size(level) == 0 && fs
        == entry_size(level) && base % entry_size(level) == 0)
}

/// The table words after mapping `size` bytes of virtual addresses at `virt`
/// to physical addresses at `base` through the table of level `level` at
/// physical address `table`, and the new end of the table area (which starts
/// at `pe`). `None` when a table word falls outside the memory or an address
/// would overflow.
///
/// The range is walked one entry at a time: each step runs to the end of the
/// entry that holds its first address, or to the end of the range. A step
/// that maps a whole entry (see `whole_entry`) writes a block or page
/// descriptor. Any other step goes through the entry's next-level table: the
/// one the entry points to when it is a pointer, else a new zeroed table at
/// the end of the table area, which the entry then points to. Mapping stops
/// when less than a page remains.
pub open spec fn fill_spec(
    w: Seq<u32>,
    mb: int,
    vb: u32,
    level: TableLevel,
    table: int,
    pe: int,
    virt: int,
    base: int,
    size: int,
    device: bool,
) -> Option<(Seq<u32>, int)>
    decreases 3 - level_num(level), size,
{
    if size < PAGE_SIZE {
        Some((w, pe))
    } else if table < mb || (table - mb) % 4 != 0 || virt > u32::MAX {
        None
    } else {
        let es = entry_size(level);
        let slot = (table - mb) / 4 + desc_index(vb, virt as u32, level);
        let off = virt % es;
        let fs = if size < es - off {
            size
        } else {
            es - off
        };
        if slot + 1 >= w.len() {
            None
        } else if whole_entry(level, virt, base, fs) {
            if virt + fs > u32::MAX || base + fs > u32::MAX {
                None
            } else {
                fill_spec(
                    w.update(slot, descriptor(level, base as u32, device)).update(slot + 1, 0u32),
                    mb,
                    vb,
                    level,
                    table,
                    pe,
                    virt + fs,
                    base + fs,
                    size - fs,
                    device,
                )
            }
        } else {
            let desc = w[slot];
            let ptr = is_pointer(desc);
            if virt + fs > u32::MAX || base + fs > u32::MAX || level == TableLevel::Level3 || (!ptr
                && (pe + TABLE_SIZE_LONG > u32::MAX || pe < mb || (pe - mb) % 4 != 0 || (pe - mb) / 4
                + TABLE_WORDS > w.len())) {
                None
            } else {
                let next = if ptr {
                    (desc & ADDR_MASK_LONG) as int
                } else {
                    pe
                };
                let pe1 = if ptr {
                    pe
                } else {
                    pe + TABLE_SIZE_LONG
                };
                let w1 = if ptr {
                    w
                } else {
                    zero_table(w, (pe - mb) / 4)
                };
                let d = if ptr {
                    desc
                } else {
                    pointer_entry(pe as u32)
                };
                let dh = if ptr {
                    w[slot + 1]
                } else {
                    0u32
                };
                match fill_spec(w1, mb, vb, next_level(level), next, pe1, virt, base, fs, device) {
                    None => None,
                    Some(inner) => fill_spec(
                        inner.0.update(slot, d).update(slot + 1, dh),
                        mb,
                        vb,
                        level,
                        table,
                        inner.1,
                        virt + fs,
                        base + fs,
                        size - fs,
                        device,
                    ),
                }
            }
        }
    }
}

/// Gets the first table level to translate a virtual address. Assumes a 3/1
/// or 2/2 split: an address in the kernel segment starts from a Level 2
/// table with a 3/1 split, any other address from a Level 1 table.
pub fn get_first_table(virtual_base: u32, virt_addr: u32) -> (r: TableLevel)
    ensures
        r == first_level(virtual_base, virt_addr),
{
    if virt_addr & virtual_base == virtual_base {
        if 0xffff_ffff - virtual_base < 0x4000_0000 {
            TableLevel::Level2
        } else {
            TableLevel::Level1
        }
    } else {
        TableLevel::Level1
    }
}

/// Given a table level, returns the next table level down, or `None` for
/// Level 3.
pub fn get_next_table(table_level: TableLevel) -> (r: Option<TableLevel>)
    ensures
        r == (if table_level == TableLevel::Level3 {
            None
        } else {
            Some(next_level(table_level))
        }),
{
    match table_level {
        TableLevel::Level1 => Some(TableLevel::Level2),
        TableLevel::Level2 => Some(TableLevel::Level3),
        TableLevel::Level3 => None,
    }
}

/// Gets the physical address of the next table from a descriptor. The high
/// word is ignored: 40-bit pointers are not supported.
pub fn get_phys_addr_from_descriptor(desc: u32, desc_high: u32) -> (r: u32)
    ensures
        r == desc & ADDR_MASK_LONG,
{
    desc & ADDR_MASK_LONG
}

/// Gets the size of a table of the given level in bytes.
pub fn get_table_size(table_level: TableLevel) -> (r: u32)
    ensures
        r == TABLE_SIZE_LONG,
{
    TABLE_SIZE_LONG
}

/// Determines if a descriptor is a table pointer entry.
pub fn is_pointer_entry(desc: u32, desc_high: u32) -> (r: bool)
    ensures
        r == is_pointer(desc),
{
    desc & TYPE_MASK == MM_PAGE_TABLE_FLAG_LONG
}

/// Makes a pointer entry to a lower level table: the low and high words.
pub fn make_pointer_entry(phys_addr: u32) -> (r: (u32, u32))
    ensures
        r == (pointer_entry(phys_addr), 0u32),
{
    ((phys_addr & ADDR_MASK_LONG) | MM_PAGE_TABLE_FLAG_LONG, 0)
}

/// Given a table level, returns the size covered by a single entry in bytes.
pub fn get_table_entry_size(table_level: TableLevel) -> (r: u32)
    ensures
        r == entry_size(table_level),
{
    proof {
        lemma_entry_sizes();
    }
    match table_level {
        TableLevel::Level1 => 1u32 << LEVEL_1_SHIFT_LONG,
        TableLevel::Level2 => 1u32 << LEVEL_2_SHIFT_LONG,
        TableLevel::Level3 => PAGE_SIZE,
    }
}

proof fn lemma_entry_sizes()
    by (bit_vector)
    ensures
        1u32 << 30u32 == 0x4000_0000u32,
        1u32 << 21u32 == 0x20_0000u32,
{
}

/// Gets the word index of the descriptor for a virtual address in a table of
/// the given level. Without LPAE the index would be taken from bits 31:20 and
/// 19:12; with LPAE:
///
/// ```text
///   +----+--------+--------+-----------+
///   | L1 |   L2   |   L3   |  Offset   |
///   +----+--------+--------+-----------+
///   31  30       21       12           0
/// ```
///
/// The index is in 32-bit words: the low word of the descriptor is at the
/// index `N` returned, the high word at `N + 1`.
pub fn get_descriptor_index(virtual_base: u32, virt_addr: u32, table_level: TableLevel) -> (r: u32)
    ensures
        r == desc_index(virtual_base, virt_addr, table_level),
        r < 1023,
        r % 2 == 0,
{
    proof {
        lemma_index_bound(virt_addr);
    }
    match table_level {
        TableLevel::Level1 => {
            let mask = if virt_addr & virtual_base == virtual_base {
                if virtual_base == 0x8000_0000 {
                    0x1u32
                } else {
                    0x3u32
                }
            } else {
                0x3u32
            };
            proof {
                lemma_level1_index(virt_addr, mask);
            }
            ((virt_addr >> LEVEL_1_SHIFT_LONG) & mask) << 1
        },
        TableLevel::Level2 => ((virt_addr >> LEVEL_2_SHIFT_LONG) & INDEX_MASK_LONG) << 1,
        TableLevel::Level3 => ((virt_addr >> LEVEL_3_SHIFT_LONG) & INDEX_MASK_LONG) << 1,
    }
}

proof fn lemma_index_bound(va: u32)
    by (bit_vector)
    ensures
        ((va >> 21u32) & 511u32) << 1u32 < 1023,
        ((va >> 12u32) & 511u32) << 1u32 < 1023,
        (((va >> 21u32) & 511u32) << 1u32) % 2 == 0,
        (((va >> 12u32) & 511u32) << 1u32) % 2 == 0,
{
}

proof fn lemma_level1_index(va: u32, mask: u32)
    by (bit_vector)
    requires
        mask == 1 || mask == 3,
    ensures
        ((va >> 30u32) & mask) << 1u32 < 1023,
        (((va >> 30u32) & mask) << 1u32) % 2 == 0,
{
}

/// Creates a descriptor for the table level, which must be 2 (a block) or 3
/// (a page): the low and high words.
pub fn make_descriptor(table_level: TableLevel, phys_addr: u32, device: bool) -> (r: Option<(u32, u32)>)
    ensures
        r == (if table_level == TableLevel::Level1 {
            None
        } else {
            Some((descriptor(table_level, phys_addr, device), 0u32))
        }),
{
    let mair_idx = if device {
        MM_DEVICE_MAIR_IDX_LONG
    } else {
        MM_NORMAL_MAIR_IDX_LONG
    };
    match table_level {
        TableLevel::Level2 => Some(make_block_descriptor(phys_addr, mair_idx)),
        TableLevel::Level3 => Some(make_page_descriptor(phys_addr, mair_idx)),
        _ => None,
    }
}

/// Makes a Level 2 block descriptor (a 2 MiB block requires LPAE).
pub fn make_block_descriptor(phys_addr: u32, mair_idx: u32) -> (r: (u32, u32))
    ensures
        r == (phys_addr | mair_idx | MM_ACCESS_FLAG_LONG | MM_BLOCK_FLAG_LONG, 0u32),
{
    (phys_addr | mair_idx | MM_ACCESS_FLAG_LONG | MM_BLOCK_FLAG_LONG, 0)
}

/// Makes a Level 3 page descriptor (4 KiB pages).
pub fn make_page_descriptor(phys_addr: u32, mair_idx: u32) -> (r: (u32, u32))
    ensures
        r == (phys_addr | mair_idx | MM_ACCESS_FLAG_LONG | MM_PAGE_FLAG_LONG, 0u32),
{
    (phys_addr | mair_idx | MM_ACCESS_FLAG_LONG | MM_PAGE_FLAG_LONG, 0)
}

/// The words, next table and end of the table area for the next-level fill
/// made for an entry whose low word is `desc`: the table it points to, or a
/// new zeroed table at `pe`.
pub open spec fn next_table_of(w: Seq<u32>, mb: int, desc: u32, pe: int) -> (Seq<u32>, int, int) {
    if is_pointer(desc) {
        (w, (desc & ADDR_MASK_LONG) as int, pe)
    } else {
        (zero_table(w, (pe - mb) / 4), pe, pe + TABLE_SIZE_LONG)
    }
}

/// Zeroes the table at word `start`. Any entry with bits 0 and 1 clear is
/// invalid.
fn zero_new_table(mem: &mut TableMemory, start: usize)
    requires
        start + TABLE_WORDS <= old(mem).words@.len(),
    ensures
        final(mem).base == old(mem).base,
        final(mem).words@ == zero_table(old(mem).words@, start as int),
{
    let ghost w0 = mem.words@;
    let wlen = mem.words.len();
    let mut i: usize = 0;
    while i < TABLE_WORDS as usize
        invariant
            i <= TABLE_WORDS,
            wlen == w0.len(),
            start + TABLE_WORDS <= w0.len(),
            mem.base == old(mem).base,
            w0 == old(mem).words@,
            mem.words@ == Seq::new(w0.len(), |j: int| if start <= j < start + i { 0u32 } else { w0[j] }),
        decreases TABLE_WORDS - i,
    {
        mem.words.set(start + i, 0);
        i += 1;
        assert(mem.words@ =~= Seq::new(w0.len(), |j: int| if start <= j < start + i { 0u32 } else { w0[j] }));
    }
    assert(mem.words@ =~= zero_table(w0, start as int));
}

/// Whether a new table fits at `pages_end`: within the memory and the
/// address space.
pub open spec fn new_table_fits(w: Seq<u32>, mb: int, pages_end: int) -> bool {
    &&& pages_end + TABLE_SIZE_LONG <= u32::MAX
    &&& pages_end >= mb
    &&& (pages_end - mb) % 4 == 0
    &&& (pages_end - mb) / 4 + TABLE_WORDS <= w.len()
}

/// Allocates a new zeroed table if the descriptor is not a table pointer,
/// then fills the next level table with entries for the range.
///
/// Returns the low and high words of the descriptor for the current table
/// entry and the new end of the table area; `None` when a new table or a
/// next-level entry would fall outside the memory, or an address would
/// overflow (see `fill_spec`).
fn alloc_table_and_fill(
    virtual_base: u32,
    table_level: TableLevel,
    desc: u32,
    desc_high: u32,
    pages_end: u32,
    virt: u32,
    base: u32,
    size: u32,
    device: bool,
    mem: &mut TableMemory,
) -> (r: Option<(u32, u32, u32)>)
    requires
        table_level != TableLevel::Level3,
    ensures
        final(mem).base == old(mem).base,
        final(mem).words@.len() == old(mem).words@.len(),
        r is Some <==> (is_pointer(desc) || new_table_fits(old(mem).words@, old(mem).base as int, pages_end as int)) && ({
            let n = next_table_of(old(mem).words@, old(mem).base as int, desc, pages_end as int);
            fill_spec(n.0, old(mem).base as int, virtual_base, next_level(table_level), n.1, n.2, virt as int, base as int, size as int, device) is Some
        }),
        r matches Some(v) ==> {
            &&& v.0 == (if is_pointer(desc) {
                desc
            } else {
                pointer_entry(pages_end)
            })
            &&& v.1 == (if is_pointer(desc) {
                desc_high
            } else {
                0u32
            })
            &&& ({
                let n = next_table_of(old(mem).words@, old(mem).base as int, desc, pages_end as int);
                fill_spec(n.0, old(mem).base as int, virtual_base, next_level(table_level), n.1, n.2, virt as int, base as int, size as int, device)
                    == Some((final(mem).words@, v.2 as int))
            })
        },
    decreases 3 - level_num(table_level), 0int,
{
    let next_level = get_next_table(table_level).unwrap();
    let mut next_addr = get_phys_addr_from_descriptor(desc, desc_high);
    let mut desc = desc;
    let mut desc_high = desc_high;
    let mut pages_end = pages_end;

    if !is_pointer_entry(desc, desc_high) {
        let table_size = get_table_size(table_level);
        if pages_end > u32::MAX - table_size || pages_end < mem.base || (pages_end - mem.base) % 4 != 0 {
            return None;
        }
        let x = (pages_end - mem.base) / 4;
        let wl = mem.words.len();
        if x as usize > wl || wl - (x as usize) < TABLE_WORDS as usize {
            return None;
        }
        next_addr = pages_end;
        pages_end += table_size;
        zero_new_table(mem, x as usize);
        let (d, dh) = make_pointer_entry(next_addr);
        desc = d;
        desc_high = dh;
    }
    match fill_table(virtual_base, next_level, next_addr, pages_end, virt, base, size, device, mem) {
        Some(end) => Some((desc, desc_high, end)),
        None => None,
    }
}

/// Fills a translation table with entries for the range of `size` bytes of
/// virtual addresses at `virt` mapped to physical addresses at `base`.
///
/// The logic is the same as for AArch64 with a different arrangement of
/// tables: the range is walked one entry at a time; a step covering a whole
/// Level 2 entry from an aligned physical address maps a block, a Level 3
/// step maps a page; any other step goes through the entry's next-level
/// table, allocating a zeroed one when the entry is not a pointer. Mapping
/// stops when less than a page remains. Returns the new end of the table
/// area, or `None`, exactly when `fill_spec` is `None`: a table entry or a
/// new table would fall outside the memory, or an address would overflow.
/// After `None` the tables may hold part of the mapping.
fn fill_table(
    virtual_base: u32,
    table_level: TableLevel,
    table_addr: u32,
    pages_end: u32,
    virt: u32,
    base: u32,
    size: u32,
    device: bool,
    mem: &mut TableMemory,
) -> (r: Option<u32>)
    ensures
        final(mem).base == old(mem).base,
        final(mem).words@.len() == old(mem).words@.len(),
        r is Some <==> fill_spec(old(mem).words@, old(mem).base as int, virtual_base, table_level, table_addr as int, pages_end as int, virt as int, base as int, size as int, device) is Some,
        r matches Some(e) ==> fill_spec(old(mem).words@, old(mem).base as int, virtual_base, table_level, table_addr as int, pages_end as int, virt as int, base as int, size as int, device)
            == Some((final(mem).words@, e as int)),
    decreases 3 - level_num(table_level), 1int,
{
    let ghost target = fill_spec(mem.words@, mem.base as int, virtual_base, table_level, table_addr as int, pages_end as int, virt as int, base as int, size as int, device);
    let esize = get_table_entry_size(table_level);
    let mut cur_virt = virt;
    let mut cur_base = base;
    let mut cur_size = size;
    let mut cur_end = pages_end;

    while cur_size >= PAGE_SIZE
        invariant
            mem.base == old(mem).base,
            mem.words@.len() == old(mem).words@.len(),
            esize == entry_size(table_level),
            target == fill_spec(old(mem).words@, old(mem).base as int, virtual_base, table_level, table_addr as int, pages_end as int, virt as int, base as int, size as int, device),
            fill_spec(mem.words@, mem.base as int, virtual_base, table_level, table_addr as int, cur_end as int, cur_virt as int, cur_base as int, cur_size as int, device) == target,
        decreases cur_size,
    {
        if table_addr < mem.base || (table_addr - mem.base) % 4 != 0 {
            return None;
        }
        let idx = get_descriptor_index(virtual_base, cur_virt, table_level);
        let q = (table_addr - mem.base) / 4;
        let wlen = mem.words.len();
        if q as usize >= wlen || wlen - (q as usize) <= idx as usize + 1 {
            return None;
        }
        let off = q + idx;
        let slot = off as usize;
        let ghost w0 = mem.words@;
        // The step runs to the end of the entry, or of the range.
        let in_entry = cur_virt % esize;
        let fill_size = if cur_size < esize - in_entry {
            cur_size
        } else {
            esize - in_entry
        };
        if cur_virt > u32::MAX - fill_size || cur_base > u32::MAX - fill_size {
            return None;
        }
        let whole = match table_level {
            TableLevel::Level3 => true,
            TableLevel::Level1 => false,
            TableLevel::Level2 => in_entry == 0 && fill_size == esize && cur_base % esize == 0,
        };
        let desc: u32;
        let desc_high: u32;

        if !whole {
            let cur = mem.words[slot];
            let cur_high = mem.words[slot + 1];
            proof {
                assert(cur == w0[off as int]);
            }
            match alloc_table_and_fill(
                virtual_base,
                table_level,
                cur,
                cur_high,
                cur_end,
                cur_virt,
                cur_base,
                fill_size,
                device,
                mem,
            ) {
                Some((d, dh, e)) => {
                    desc = d;
                    desc_high = dh;
                    cur_end = e;
                },
                None => {
                    return None;
                },
            }
        } else {
            let (d, dh) = make_descriptor(table_level, cur_base, device).unwrap();
            desc = d;
            desc_high = dh;
        }
        mem.words.set(slot, desc);
        mem.words.set(slot + 1, desc_high);
        cur_virt += fill_size;
        cur_base += fill_size;
        cur_size -= fill_size;
    }
    Some(cur_end)
}

/// The table words and end of the table area after `map_memory`: `size`
/// bytes of physical addresses from `base` mapped at virtual addresses from
/// `virt`, through the table of the level that `virt` starts at, at `ps`.
pub open spec fn map_spec(w: Seq<u32>, mb: int, vb: u32, ps: u32, pe: int, virt: u32, base: int, size: int, device: bool) -> Option<
    (Seq<u32>, int),
> {
    fill_spec(w, mb, vb, first_level(vb, virt), ps as int, pe, virt as int, base, size, device)
}

/// The table words and end of the table area after `direct_map_memory`:
/// `size` bytes of physical addresses from `base` mapped at virtual
/// addresses from `virtual_base + base`.
pub open spec fn direct_map_spec(w: Seq<u32>, mb: int, vb: u32, ps: u32, pe: int, base: u32, size: int, device: bool) -> Option<
    (Seq<u32>, int),
> {
    fill_spec(w, mb, vb, first_level(vb, (vb + base) as u32), ps as int, pe, vb + base, base as int, size, device)
}

/// A direct map is the map of a range at `virtual_base` plus its physical
/// base: `direct_map_memory` returns the same value and makes the same table
/// writes as `map_memory` with `virt == virtual_base + base`.
pub proof fn law_direct_map_is_map_at_offset(w: Seq<u32>, mb: int, vb: u32, ps: u32, pe: int, base: u32, size: int, device: bool)
    requires
        vb + base <= u32::MAX,
    ensures
        direct_map_spec(w, mb, vb, ps, pe, base, size, device) == map_spec(
            w,
            mb,
            vb,
            ps,
            pe,
            (vb + base) as u32,
            base as int,
            size,
            device,
        ),
{
}

/// Directly maps a physical memory range into the kernel's virtual address
/// space: physical address `a` maps to virtual address `virtual_base + a`.
///
/// `pages_start` is the address of the kernel's Level 1 table and
/// `pages_end` the start of available memory for new tables. Returns the new
/// end of the table area.
pub fn direct_map_memory(
    virtual_base: u32,
    pages_start: u32,
    pages_end: u32,
    base: u32,
    size: u32,
    device: bool,
    mem: &mut TableMemory,
) -> (r: u32)
    requires
        virtual_base + base <= u32::MAX,
        direct_map_spec(
            old(mem).words@,
            old(mem).base as int,
            virtual_base,
            pages_start,
            pages_end as int,
            base,
            size as int,
            device,
        ) is Some,
    ensures
        final(mem).base == old(mem).base,
        direct_map_spec(
            old(mem).words@,
            old(mem).base as int,
            virtual_base,
            pages_start,
            pages_end as int,
            base,
            size as int,
            device,
        ) == Some((final(mem).words@, r as int)),
        map_spec(
            old(mem).words@,
            old(mem).base as int,
            virtual_base,
            pages_start,
            pages_end as int,
            (virtual_base + base) as u32,
            base as int,
            size as int,
            device,
        ) == Some((final(mem).words@, r as int)),
{
    proof {
        law_direct_map_is_map_at_offset(
            mem.words@,
            mem.base as int,
            virtual_base,
            pages_start,
            pages_end as int,
            base,
            size as int,
            device,
        );
    }
    let virt = virtual_base + base;
    fill_table(virtual_base, get_first_table(virtual_base, virt), pages_start, pages_end, virt, base, size, device, mem).unwrap()
}

/// `direct_map_memory` for any input: returns `None`, exactly when the map
/// cannot be made (`virtual_base + base` overflows, a table entry or a new
/// table would fall outside the memory, or an address would overflow), and
/// otherwise the new end of the table area. After `None` the tables may hold
/// part of the mapping.
pub fn try_direct_map_memory(
    virtual_base: u32,
    pages_start: u32,
    pages_end: u32,
    base: u32,
    size: u32,
    device: bool,
    mem: &mut TableMemory,
) -> (r: Option<u32>)
    ensures
        final(mem).base == old(mem).base,
        r is Some <==> virtual_base + base <= u32::MAX && direct_map_spec(
            old(mem).words@,
            old(mem).base as int,
            virtual_base,
            pages_start,
            pages_end as int,
            base,
            size as int,
            device,
        ) is Some,
        r matches Some(e) ==> direct_map_spec(
            old(mem).words@,
            old(mem).base as int,
            virtual_base,
            pages_start,
            pages_end as int,
            base,
            size as int,
            device,
        ) == Some((final(mem).words@, e as int)),
{
    if base > u32::MAX - virtual_base {
        return None;
    }
    let virt = virtual_base + base;
    fill_table(virtual_base, get_first_table(virtual_base, virt), pages_start, pages_end, virt, base, size, device, mem)
}

/// `map_memory` for any input: returns `None`, exactly when the map cannot
/// be made (a table entry or a new table would fall outside the memory, or
/// an address would overflow), and otherwise the new end of the table area.
/// After `None` the tables may hold part of the mapping.
pub fn try_map_memory(
    virtual_base: u32,
    pages_start: u32,
    pages_end: u32,
    virt: u32,
    base: u32,
    size: u32,
    device: bool,
    mem: &mut TableMemory,
) -> (r: Option<u32>)
    ensures
        final(mem).base == old(mem).base,
        r is Some <==> map_spec(
            old(mem).words@,
            old(mem).base as int,
            virtual_base,
            pages_start,
            pages_end as int,
            virt,
            base as int,
            size as int,
            device,
        ) is Some,
        r matches Some(e) ==> map_spec(
            old(mem).words@,
            old(mem).base as int,
            virtual_base,
            pages_start,
            pages_end as int,
            virt,
            base as int,
            size as int,
            device,
        ) == Some((final(mem).words@, e as int)),
{
    fill_table(virtual_base, get_first_table(virtual_base, virt), pages_start, pages_end, virt, base, size, device, mem)
}

/// Maps a range of physical addresses into a task's virtual address space,
/// generalizing `direct_map_memory` to `virt != base`: physical address `a`
/// maps to virtual address `a - base + virt`.
///
/// `pages_start` is the address of the task's Level 1 table and `pages_end`
/// the start of available memory for new tables. Returns the new end of the
/// table area.
pub fn map_memory(
    virtual_base: u32,
    pages_start: u32,
    pages_end: u32,
    virt: u32,
    base: u32,
    size: u32,
    device: bool,
    mem: &mut TableMemory,
) -> (r: u32)
    requires
        map_spec(
            old(mem).words@,
            old(mem).base as int,
            virtual_base,
            pages_start,
            pages_end as int,
            virt,
            base as int,
            size as int,
            device,
        ) is Some,
    ensures
        final(mem).base == old(mem).base,
        map_spec(
            old(mem).words@,
            old(mem).base as int,
            virtual_base,
            pages_start,
            pages_end as int,
            virt,
            base as int,
            size as int,
            device,
        ) == Some((final(mem).words@, r as int)),
{
    fill_table(virtual_base, get_first_table(virtual_base, virt), pages_start, pages_end, virt, base, size, device, mem).unwrap()
}

} // verus!
