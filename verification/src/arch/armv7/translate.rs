//! Address translation through ARMv7a LPAE translation tables.
//!
//! `translate` walks the tables as the MMU does with 4 KiB granules, from
//! the table of a given level. The laws below state that mapping a
//! page-aligned range, into tables that earlier maps may have built,
//! translates every virtual address of the range to its physical address
//! (`virt + o` is reached at `base + o`), and that the translations the map
//! does not touch stay as they were.

use vstd::prelude::*;
use crate::arch::armv7::mm::{
    descriptor, desc_index, direct_map_spec, entry_size, fill_spec, first_level, is_pointer, level_num, mair_idx, map_spec,
    next_level, pointer_entry, whole_entry, zero_table, TableLevel, ADDR_MASK_LONG, TABLE_SIZE_LONG,
};

verus! {

/// The physical address that virtual address `va` translates to through
/// the table of level `level` at physical address `table`, `None` when the
/// address is not mapped. Only the low word of a descriptor is read (40-bit
/// output addresses are not used).
///
/// An entry is valid when bit 0 is set. A valid Level 3 entry maps a page; a
/// valid Level 1 or Level 2 entry with bit 1 clear maps a block; any other
/// valid entry points to the next-level table.
pub open spec fn translate(w: Seq<u32>, mb: int, vb: u32, level: TableLevel, table: int, va: u32) -> Option<int>
    decreases 3 - level_num(level),
{
    if table < mb || (table - mb) % 4 != 0 {
        None
    } else {
        let slot = (table - mb) / 4 + desc_index(vb, va, level);
        if slot >= w.len() {
            None
        } else {
            let d = w[slot];
            if d & 1u32 == 0u32 {
                None
            } else if level == TableLevel::Level3 {
                Some((d & ADDR_MASK_LONG) + (va as int) % 4096)
            } else if d & 2u32 == 0u32 {
                Some((d & ADDR_MASK_LONG) + (va as int) % entry_size(level))
            } else {
                translate(w, mb, vb, next_level(level), (d & ADDR_MASK_LONG) as int, va)
            }
        }
    }
}

/// The span of virtual addresses that one table of level `l` translates. At
/// Level 1 the index has one bit in a 2/2 split (`vb == 0x8000_0000`), two
/// bits otherwise.
pub open spec fn cover(vb: u32, l: TableLevel) -> int {
    match l {
        TableLevel::Level1 => if vb == 0x8000_0000u32 { 0x8000_0000 } else { 0x1_0000_0000 },
        TableLevel::Level2 => 0x4000_0000,
        TableLevel::Level3 => 0x20_0000,
    }
}

/// The `n` addresses from `a` on lie within the span of one table of level
/// `l`.
pub open spec fn in_one_table(vb: u32, l: TableLevel, a: int, n: int) -> bool {
    n <= 0 || a / cover(vb, l) == (a + n - 1) / cover(vb, l)
}

proof fn lemma_index_bits(x: u32)
    by (bit_vector)
    ensures
        (x >> 30u32) & 3u32 == x / 0x4000_0000u32,
        (x >> 30u32) & 1u32 == (x / 0x4000_0000u32) % 2,
        (x & 0x8000_0000u32 == 0x8000_0000u32) == (x >= 0x8000_0000u32),
        (x >> 21u32) & 511u32 == (x / 0x20_0000u32) % 512,
        (x >> 12u32) & 511u32 == (x / 0x1000u32) % 512,
        ((x >> 30u32) & 3u32) << 1u32 == 2 * ((x >> 30u32) & 3u32),
        ((x >> 30u32) & 1u32) << 1u32 == 2 * ((x >> 30u32) & 1u32),
        ((x >> 21u32) & 511u32) << 1u32 == 2 * ((x >> 21u32) & 511u32),
        ((x >> 12u32) & 511u32) << 1u32 == 2 * ((x >> 12u32) & 511u32),
{
}

/// The index of an address in a table of level `l` is twice its entry
/// number within the table's span.
proof fn lemma_desc_index(vb: u32, l: TableLevel, x: u32)
    ensures
        desc_index(vb, x, l) == 2 * (x as int / entry_size(l) - (cover(vb, l) / entry_size(l)) * (x as int / cover(vb, l))),
        0 <= x as int / entry_size(l) - (cover(vb, l) / entry_size(l)) * (x as int / cover(vb, l)) < cover(vb, l) / entry_size(l),
        desc_index(vb, x, l) + 1 < 1024,
{
    lemma_index_bits(x);
    let es = entry_size(l);
    let c = cover(vb, l);
    assert(c % es == 0 && c / es * es == c);
    vstd::arithmetic::div_mod::lemma_div_denominator(x as int, es, c / es);
    vstd::arithmetic::div_mod::lemma_fundamental_div_mod(x as int / es, c / es);
    if l == TableLevel::Level1 {
        if vb != 0x8000_0000u32 {
            assert(x as int / c == 0);
        }
    }
}

/// Within one table's span, indices follow entry numbers.
proof fn lemma_index_in_table(vb: u32, l: TableLevel, a: u32, x: u32)
    requires
        a as int / cover(vb, l) == x as int / cover(vb, l),
    ensures
        desc_index(vb, x, l) - desc_index(vb, a, l) == 2 * (x as int / entry_size(l) - a as int / entry_size(l)),
{
    lemma_desc_index(vb, l, a);
    lemma_desc_index(vb, l, x);
}

/// An address between two others of the same span is in that span too.
proof fn lemma_between_cover(vb: u32, l: TableLevel, a: int, x: int, b: int)
    requires
        0 <= a <= x <= b,
        a / cover(vb, l) == b / cover(vb, l),
    ensures
        x / cover(vb, l) == a / cover(vb, l),
{
    vstd::arithmetic::div_mod::lemma_div_is_ordered(a, x, cover(vb, l));
    vstd::arithmetic::div_mod::lemma_div_is_ordered(x, b, cover(vb, l));
}

proof fn lemma_descriptor_bits(b: u32, attr: u32)
    by (bit_vector)
    requires
        b % 0x1000 == 0,
        attr == 0u32 || attr == 4u32,
    ensures
        (b | attr | 0x400u32 | 1u32) & 1u32 == 1u32,
        (b | attr | 0x400u32 | 1u32) & 2u32 == 0u32,
        (b | attr | 0x400u32 | 1u32) & 0xffff_f000u32 == b,
        (b | attr | 0x400u32 | 3u32) & 1u32 == 1u32,
        (b | attr | 0x400u32 | 3u32) & 0xffff_f000u32 == b,
        ((b & 0xffff_f000u32) | 3u32) & 1u32 == 1u32,
        ((b & 0xffff_f000u32) | 3u32) & 2u32 == 2u32,
        ((b & 0xffff_f000u32) | 3u32) & 0xffff_f000u32 == b,
        0u32 & 3u32 != 3u32,
{
}

/// Block and page descriptors are valid, a Level 2 one is a block, and both
/// hold their (aligned) output address; a pointer entry is valid, is not a
/// block and holds its table address.
proof fn lemma_descriptors(l: TableLevel, b: u32, device: bool)
    requires
        b % 0x1000 == 0,
    ensures
        descriptor(l, b, device) & 1u32 == 1u32,
        l == TableLevel::Level2 ==> descriptor(l, b, device) & 2u32 == 0u32,
        descriptor(l, b, device) & ADDR_MASK_LONG == b,
        pointer_entry(b) & 1u32 == 1u32,
        pointer_entry(b) & 2u32 == 2u32,
        pointer_entry(b) & ADDR_MASK_LONG == b,
        !is_pointer(0u32),
{
    assert(0x1u32 << 2u32 == 4u32 && 0x0u32 << 2u32 == 0u32 && 0x1u32 << 10u32 == 0x400u32) by (bit_vector);
    lemma_descriptor_bits(b, mair_idx(device));
}

/// One step of a fill: it runs from `a` to the end of the entry holding `a`
/// or to the end of the range, and the rest of the range starts at the next
/// entry.
proof fn lemma_step(vb: u32, l: TableLevel, a: int, size: int)
    requires
        a >= 0,
        a % 4096 == 0,
        size % 4096 == 0,
        size >= 4096,
        a + size <= u32::MAX + 1,
        in_one_table(vb, l, a, size),
    ensures
        ({
            let es = entry_size(l);
            let off = a % es;
            let fs = if size < es - off { size } else { es - off };
            &&& off % 4096 == 0
            &&& fs % 4096 == 0
            &&& 4096 <= fs <= size
            &&& a / es == (a + fs - 1) / es
            &&& l != TableLevel::Level3 ==> cover(vb, next_level(l)) == es
            &&& l == TableLevel::Level3 ==> off == 0 && fs == 4096
            &&& fs < size ==> (a + fs) % es == 0 && (a + fs) / es == a / es + 1
            &&& in_one_table(vb, l, a + fs, size - fs)
            &&& a / cover(vb, l) == (a + size - 1) / cover(vb, l)
            &&& (a + fs - 1) / cover(vb, l) == a / cover(vb, l)
            &&& fs < size ==> (a + fs) / cover(vb, l) == a / cover(vb, l)
        }),
{
    let es = entry_size(l);
    let off = a % es;
    let fs = if size < es - off { size } else { es - off };
    assert(es % 4096 == 0 && es >= 4096);
    vstd::arithmetic::div_mod::lemma_fundamental_div_mod(a, es);
    vstd::arithmetic::div_mod::lemma_mod_mod(a, 4096, es / 4096);
    assert(4096 * (es / 4096) == es);
    assert(off % 4096 == 0);
    assert(off <= es - 4096);
    let q = a / es;
    assert(a == es * q + off);
    assert(a + fs - 1 == es * q + (off + fs - 1));
    assert(0 <= off + fs - 1 < es);
    vstd::arithmetic::div_mod::lemma_div_multiples_vanish_fancy(q, off + fs - 1, es);
    if fs < size {
        assert(es * (q + 1) == es * q + es) by (nonlinear_arith);
        assert(a + fs == es * (q + 1));
        vstd::arithmetic::div_mod::lemma_div_multiples_vanish(q + 1, es);
        vstd::arithmetic::div_mod::lemma_mod_multiples_basic(q + 1, es);
    }
    lemma_between_cover(vb, l, a, a + fs - 1, a + size - 1);
    if fs < size {
        lemma_between_cover(vb, l, a, a + fs, a + size - 1);
    }
}

/// The words `w1` and `w2` agree from index `lo` (inclusive) to `hi`
/// (exclusive).
pub open spec fn agree_on(w1: Seq<u32>, w2: Seq<u32>, lo: int, hi: int) -> bool {
    forall|i: int| lo <= i < hi ==> #[trigger] w1[i] == w2[i]
}

/// The words `w1` and `w2` agree at every index of `s`.
pub open spec fn agree_in(w1: Seq<u32>, w2: Seq<u32>, s: Set<int>) -> bool {
    forall|i: int| #[trigger] s.contains(i) ==> w1[i] == w2[i]
}

/// The length of the first step of a fill of `size` bytes from virtual
/// address `a` through a table of level `l`: to the end of the entry that
/// holds `a`, or to the end of the range.
pub open spec fn step_len(l: TableLevel, a: int, size: int) -> int {
    let es = entry_size(l);
    let off = a % es;
    if size < es - off {
        size
    } else {
        es - off
    }
}

/// The word indices of the existing tables that a fill reads: both words of
/// the table's entries for the range and, for each step through an entry
/// that already points to a table, the words of the next-level fill through
/// that table.
pub open spec fn foot(w: Seq<u32>, mb: int, vb: u32, level: TableLevel, table: int, virt: int, base: int, size: int) -> Set<int>
    decreases 3 - level_num(level), size,
{
    if size < 4096 || table < mb || (table - mb) % 4 != 0 || virt > u32::MAX {
        Set::empty()
    } else {
        let fs = step_len(level, virt, size);
        let slot = (table - mb) / 4 + desc_index(vb, virt as u32, level);
        let sub = if !whole_entry(level, virt, base, fs) && is_pointer(w[slot]) {
            foot(w, mb, vb, next_level(level), (w[slot] & ADDR_MASK_LONG) as int, virt, base, fs)
        } else {
            Set::empty()
        };
        set![slot, slot + 1].union(sub).union(foot(w, mb, vb, level, table, virt + fs, base + fs, size - fs))
    }
}

/// The word indices of the existing tables that a fill writes: the entries
/// it sets to a descriptor or to a new table, and the words the next-level
/// fills through existing tables write.
pub open spec fn writes(w: Seq<u32>, mb: int, vb: u32, level: TableLevel, table: int, virt: int, base: int, size: int) -> Set<int>
    decreases 3 - level_num(level), size,
{
    if size < 4096 || table < mb || (table - mb) % 4 != 0 || virt > u32::MAX {
        Set::empty()
    } else {
        let fs = step_len(level, virt, size);
        let slot = (table - mb) / 4 + desc_index(vb, virt as u32, level);
        let here = if !whole_entry(level, virt, base, fs) && is_pointer(w[slot]) {
            writes(w, mb, vb, next_level(level), (w[slot] & ADDR_MASK_LONG) as int, virt, base, fs)
        } else {
            set![slot, slot + 1]
        };
        here.union(writes(w, mb, vb, level, table, virt + fs, base + fs, size - fs))
    }
}

/// The existing tables that a fill goes through are well formed: each lies
/// below word index `lim`, and the words read for different entries are
/// distinct.
pub open spec fn tree_ok(w: Seq<u32>, mb: int, vb: u32, level: TableLevel, table: int, lim: int, virt: int, base: int, size: int) -> bool
    decreases 3 - level_num(level), size,
{
    if size < 4096 {
        true
    } else {
        let fs = step_len(level, virt, size);
        let slot = (table - mb) / 4 + desc_index(vb, virt as u32, level);
        let rest = foot(w, mb, vb, level, table, virt + fs, base + fs, size - fs);
        &&& table >= mb
        &&& (table - mb) % 4 == 0
        &&& (table - mb) / 4 + 1024 <= lim
        &&& 0 <= virt <= u32::MAX
        &&& base >= 0
        &&& !rest.contains(slot)
        &&& !rest.contains(slot + 1)
        &&& (!whole_entry(level, virt, base, fs) && is_pointer(w[slot]) ==> {
            let t = (w[slot] & ADDR_MASK_LONG) as int;
            let sub = foot(w, mb, vb, next_level(level), t, virt, base, fs);
            &&& tree_ok(w, mb, vb, next_level(level), t, lim, virt, base, fs)
            &&& !sub.contains(slot)
            &&& !sub.contains(slot + 1)
            &&& sub.disjoint(rest)
        })
        &&& tree_ok(w, mb, vb, level, table, lim, virt + fs, base + fs, size - fs)
    }
}

/// The word indices that the walk of `translate` reads.
pub open spec fn reads(w: Seq<u32>, mb: int, vb: u32, level: TableLevel, table: int, va: u32) -> Set<int>
    decreases 3 - level_num(level),
{
    if table < mb || (table - mb) % 4 != 0 {
        Set::empty()
    } else {
        let slot = (table - mb) / 4 + desc_index(vb, va, level);
        if slot >= w.len() {
            Set::empty()
        } else {
            let d = w[slot];
            if d & 1u32 == 0u32 || level == TableLevel::Level3 || d & 2u32 == 0u32 {
                set![slot]
            } else {
                set![slot].union(reads(w, mb, vb, next_level(level), (d & ADDR_MASK_LONG) as int, va))
            }
        }
    }
}

/// A walk gives the same result in any memory that holds the words it
/// reads.
pub proof fn lemma_reads(w: Seq<u32>, w2: Seq<u32>, mb: int, vb: u32, level: TableLevel, table: int, va: u32)
    requires
        w2.len() == w.len(),
        agree_in(w2, w, reads(w, mb, vb, level, table, va)),
    ensures
        translate(w2, mb, vb, level, table, va) == translate(w, mb, vb, level, table, va),
    decreases 3 - level_num(level),
{
    if table >= mb && (table - mb) % 4 == 0 {
        let slot = (table - mb) / 4 + desc_index(vb, va, level);
        if slot < w.len() {
            assert(reads(w, mb, vb, level, table, va).contains(slot));
            let d = w[slot];
            if !(d & 1u32 == 0u32 || level == TableLevel::Level3 || d & 2u32 == 0u32) {
                let r = reads(w, mb, vb, next_level(level), (d & ADDR_MASK_LONG) as int, va);
                assert forall|i: int| #[trigger] r.contains(i) implies w2[i] == w[i] by {
                    assert(reads(w, mb, vb, level, table, va).contains(i));
                }
                lemma_reads(w, w2, mb, vb, next_level(level), (d & ADDR_MASK_LONG) as int, va);
            }
        }
    }
}

/// A pointer entry is valid and is not a block.
proof fn lemma_pointer_valid(d: u32)
    by (bit_vector)
    requires
        d & 3u32 == 3u32,
    ensures
        d & 1u32 == 1u32,
        d & 2u32 == 2u32,
{
}

/// The index facts of one step of a fill.
proof fn lemma_indices(vb: u32, level: TableLevel, a: int, size: int)
    requires
        a >= 0,
        a % 4096 == 0,
        size % 4096 == 0,
        size >= 4096,
        a + size <= u32::MAX + 1,
        in_one_table(vb, level, a, size),
    ensures
        ({
            let es = entry_size(level);
            let fs = step_len(level, a, size);
            let lo = desc_index(vb, a as u32, level) as int;
            let hi = desc_index(vb, (a + size - 1) as u32, level) as int;
            &&& lo <= hi
            &&& hi + 1 < 1024
            &&& forall|va: u32| a <= va < a + fs ==> #[trigger] desc_index(vb, va, level) == lo
            &&& fs < size ==> desc_index(vb, (a + fs) as u32, level) == lo + 2
            &&& fs < size ==> desc_index(vb, (a + fs + (size - fs) - 1) as u32, level) == hi
            &&& fs % 4096 == 0 && 4096 <= fs <= size
            &&& a / es == (a + fs - 1) / es
            &&& in_one_table(vb, level, a + fs, size - fs)
            &&& level != TableLevel::Level3 ==> in_one_table(vb, next_level(level), a, fs)
        }),
{
    lemma_step(vb, level, a, size);
    let es = entry_size(level);
    let fs = step_len(level, a, size);
    let lo = desc_index(vb, a as u32, level);
    lemma_index_in_table(vb, level, a as u32, (a + size - 1) as u32);
    lemma_desc_index(vb, level, (a + size - 1) as u32);
    lemma_desc_index(vb, level, a as u32);
    vstd::arithmetic::div_mod::lemma_div_is_ordered(a, a + size - 1, es);
    assert forall|va: u32| a <= va < a + fs implies #[trigger] desc_index(vb, va, level) == lo by {
        lemma_between_cover(vb, level, a, va as int, a + size - 1);
        lemma_index_in_table(vb, level, a as u32, va);
        vstd::arithmetic::div_mod::lemma_div_is_ordered(a, va as int, es);
        vstd::arithmetic::div_mod::lemma_div_is_ordered(va as int, a + fs - 1, es);
    }
    if fs < size {
        lemma_index_in_table(vb, level, a as u32, (a + fs) as u32);
    }
}

/// The words of a fill lie below the bound of its tables, and it writes
/// only words it reads.
proof fn lemma_foot_below(w: Seq<u32>, mb: int, vb: u32, level: TableLevel, table: int, lim: int, virt: int, base: int, size: int)
    requires
        tree_ok(w, mb, vb, level, table, lim, virt, base, size),
    ensures
        forall|i: int| #[trigger] foot(w, mb, vb, level, table, virt, base, size).contains(i) ==> 0 <= i < lim,
        forall|i: int| #[trigger] writes(w, mb, vb, level, table, virt, base, size).contains(i) ==> foot(w, mb, vb, level, table, virt, base, size).contains(i),
    decreases 3 - level_num(level), size,
{
    if size >= 4096 {
        let fs = step_len(level, virt, size);
        assert(entry_size(level) > 0);
        lemma_desc_index(vb, level, virt as u32);
        let slot = (table - mb) / 4 + desc_index(vb, virt as u32, level);
        let f = foot(w, mb, vb, level, table, virt, base, size);
        let wt = writes(w, mb, vb, level, table, virt, base, size);
        let fr = foot(w, mb, vb, level, table, virt + fs, base + fs, size - fs);
        let wr = writes(w, mb, vb, level, table, virt + fs, base + fs, size - fs);
        lemma_foot_below(w, mb, vb, level, table, lim, virt + fs, base + fs, size - fs);
        if !whole_entry(level, virt, base, fs) && is_pointer(w[slot]) {
            let t = (w[slot] & ADDR_MASK_LONG) as int;
            lemma_foot_below(w, mb, vb, next_level(level), t, lim, virt, base, fs);
            let fsub = foot(w, mb, vb, next_level(level), t, virt, base, fs);
            let wsub = writes(w, mb, vb, next_level(level), t, virt, base, fs);
            assert(f == set![slot, slot + 1].union(fsub).union(fr));
            assert(wt == wsub.union(wr));
            assert forall|i: int| #[trigger] f.contains(i) implies 0 <= i < lim by {
                if fsub.contains(i) {
                } else if fr.contains(i) {
                }
            }
            assert forall|i: int| #[trigger] wt.contains(i) implies f.contains(i) by {
                if wsub.contains(i) {
                    assert(fsub.contains(i));
                } else {
                    assert(fr.contains(i));
                }
            }
        } else {
            assert(f == set![slot, slot + 1].union(Set::<int>::empty()).union(fr));
            assert(wt == set![slot, slot + 1].union(wr));
            assert forall|i: int| #[trigger] f.contains(i) implies 0 <= i < lim by {
                if fr.contains(i) {
                }
            }
            assert forall|i: int| #[trigger] wt.contains(i) implies f.contains(i) by {
                if wr.contains(i) {
                    assert(fr.contains(i));
                }
            }
        }
    }
}

/// What a fill reads and writes, and whether its tables are well formed,
/// depend only on the words it reads.
proof fn lemma_foot_depends(w: Seq<u32>, w2: Seq<u32>, mb: int, vb: u32, level: TableLevel, table: int, lim: int, virt: int, base: int, size: int)
    requires
        agree_in(w2, w, foot(w, mb, vb, level, table, virt, base, size)),
    ensures
        foot(w2, mb, vb, level, table, virt, base, size) == foot(w, mb, vb, level, table, virt, base, size),
        writes(w2, mb, vb, level, table, virt, base, size) == writes(w, mb, vb, level, table, virt, base, size),
        tree_ok(w, mb, vb, level, table, lim, virt, base, size) ==> tree_ok(w2, mb, vb, level, table, lim, virt, base, size),
    decreases 3 - level_num(level), size,
{
    if size >= 4096 && !(table < mb || (table - mb) % 4 != 0 || virt > u32::MAX) {
        let fs = step_len(level, virt, size);
        assert(entry_size(level) > 0);
        let slot = (table - mb) / 4 + desc_index(vb, virt as u32, level);
        assert(foot(w, mb, vb, level, table, virt, base, size).contains(slot));
        assert(w2[slot] == w[slot]);
        let f = foot(w, mb, vb, level, table, virt, base, size);
        let fr = foot(w, mb, vb, level, table, virt + fs, base + fs, size - fs);
        if !whole_entry(level, virt, base, fs) && is_pointer(w[slot]) {
            let t = (w[slot] & ADDR_MASK_LONG) as int;
            let fsub = foot(w, mb, vb, next_level(level), t, virt, base, fs);
            assert(f == set![slot, slot + 1].union(fsub).union(fr));
            assert forall|i: int| #[trigger] fsub.contains(i) implies w2[i] == w[i] by {
                assert(f.contains(i));
            }
            lemma_foot_depends(w, w2, mb, vb, next_level(level), t, lim, virt, base, fs);
        } else {
            assert(f == set![slot, slot + 1].union(Set::<int>::empty()).union(fr));
        }
        assert forall|i: int| #[trigger] fr.contains(i) implies w2[i] == w[i] by {
            assert(f.contains(i));
        }
        lemma_foot_depends(w, w2, mb, vb, level, table, lim, virt + fs, base + fs, size - fs);
        assert(foot(w2, mb, vb, level, table, virt, base, size) =~= foot(w, mb, vb, level, table, virt, base, size));
        assert(writes(w2, mb, vb, level, table, virt, base, size) =~= writes(w, mb, vb, level, table, virt, base, size));
    }
}

/// The tables of a fill through a table whose entries for the range do not
/// point to tables are well formed, and the fill reads only those entries.
#[verifier::spinoff_prover]
#[verifier::rlimit(100)]
proof fn lemma_fresh(w: Seq<u32>, mb: int, vb: u32, level: TableLevel, table: int, lim: int, virt: int, base: int, size: int)
    requires
        virt >= 0,
        base >= 0,
        size >= 0,
        virt % 4096 == 0,
        size % 4096 == 0,
        virt + size <= u32::MAX + 1,
        in_one_table(vb, level, virt, size),
        table >= mb,
        (table - mb) % 4 == 0,
        (table - mb) / 4 + 1024 <= lim,
        size > 0 ==> forall|i: int|
            (table - mb) / 4 + desc_index(vb, virt as u32, level) <= i <= (table - mb) / 4 + desc_index(
                vb,
                (virt + size - 1) as u32,
                level,
            ) ==> !is_pointer(#[trigger] w[i]),
    ensures
        tree_ok(w, mb, vb, level, table, lim, virt, base, size),
        size > 0 ==> forall|i: int|
            #[trigger] foot(w, mb, vb, level, table, virt, base, size).contains(i) ==> (table - mb) / 4 + desc_index(
                vb,
                virt as u32,
                level,
            ) <= i <= (table - mb) / 4 + desc_index(vb, (virt + size - 1) as u32, level) + 1,
    decreases size,
{
    if size >= 4096 {
        let fs = step_len(level, virt, size);
        lemma_indices(vb, level, virt, size);
        let t0 = (table - mb) / 4;
        let slot = t0 + desc_index(vb, virt as u32, level);
        assert(!is_pointer(w[slot]));
        lemma_fresh(w, mb, vb, level, table, lim, virt + fs, base + fs, size - fs);
        let fr = foot(w, mb, vb, level, table, virt + fs, base + fs, size - fs);
        assert(foot(w, mb, vb, level, table, virt, base, size) == set![slot, slot + 1].union(Set::<int>::empty()).union(fr));
        assert(!fr.contains(slot));
        assert(!fr.contains(slot + 1));
    }
}

/// What a fill through the table of level `level` at `table` needs: the
/// fill succeeds, has the shape of `fill_shape`, and the existing tables it
/// goes through, which lie below word index `lim`, are well formed.
pub open spec fn fill_pre(w: Seq<u32>, mb: int, vb: u32, level: TableLevel, table: int, pe: int, lim: int, virt: int, base: int, size: int, device: bool) -> bool {
    &&& fill_spec(w, mb, vb, level, table, pe, virt, base, size, device) is Some
    &&& fill_shape(w, mb, vb, level, table, pe, lim, virt, base, size)
    &&& tree_ok(w, mb, vb, level, table, lim, virt, base, size)
}

/// The range is page aligned and lies within the table's span, and the
/// existing tables lie below the table area, within the memory.
pub open spec fn fill_shape(w: Seq<u32>, mb: int, vb: u32, level: TableLevel, table: int, pe: int, lim: int, virt: int, base: int, size: int) -> bool {
    &&& virt % 4096 == 0
    &&& base % 4096 == 0
    &&& size % 4096 == 0
    &&& virt >= 0
    &&& base >= 0
    &&& size >= 0
    &&& virt + size <= u32::MAX
    &&& base + size <= u32::MAX
    &&& in_one_table(vb, level, virt, size)
    &&& mb >= 0
    &&& table >= mb
    &&& (table - mb) % 4 == 0
    &&& (table - mb) / 4 + 1024 <= lim
    &&& lim <= (pe - mb) / 4
    &&& lim <= w.len()
    &&& pe >= mb
    &&& (pe - mb) % 4 == 0
    &&& pe % 4096 == 0
}

/// What a fill through the table of level `level` at `table` does: the
/// table area only grows, and stays within the memory when it grows; only
/// the words of `writes` and the new tables are written; and every address
/// of the range translates to its physical address in any memory that holds
/// the same words that the fill read and the same new tables.
pub open spec fn fill_post(w: Seq<u32>, mb: int, vb: u32, level: TableLevel, table: int, pe: int, virt: int, base: int, size: int, device: bool) -> bool {
    let res = fill_spec(w, mb, vb, level, table, pe, virt, base, size, device)->0;
    &&& pe <= res.1
    &&& res.1 == pe || (res.1 - mb) / 4 <= w.len()
    &&& res.1 % 4096 == 0
    &&& (res.1 - mb) % 4 == 0
    &&& res.0.len() == w.len()
    &&& forall|i: int|
        0 <= i < w.len() && !writes(w, mb, vb, level, table, virt, base, size).contains(i) && !((pe - mb) / 4 <= i < (
        res.1 - mb) / 4) ==> #[trigger] res.0[i] == w[i]
    &&& forall|w3: Seq<u32>, va: u32|
        virt <= va < virt + size && w3.len() == w.len() && agree_in(
            w3,
            res.0,
            foot(w, mb, vb, level, table, virt, base, size),
        ) && agree_on(w3, res.0, (pe - mb) / 4, (res.1 - mb) / 4) ==> #[trigger] translate(w3, mb, vb, level, table, va)
            == Some(base + va - virt)
}

/// A fill through well-formed tables does what `fill_post` says.
proof fn lemma_fill(w: Seq<u32>, mb: int, vb: u32, level: TableLevel, table: int, pe: int, lim: int, virt: int, base: int, size: int, device: bool)
    requires
        fill_pre(w, mb, vb, level, table, pe, lim, virt, base, size, device),
    ensures
        fill_post(w, mb, vb, level, table, pe, virt, base, size, device),
    decreases 3 - level_num(level), size, 1int,
{
    if size < 4096 {
        return;
    }
    let fs = step_len(level, virt, size);
    let slot = (table - mb) / 4 + desc_index(vb, virt as u32, level);
    if whole_entry(level, virt, base, fs) {
        lemma_fill_whole(w, mb, vb, level, table, pe, lim, virt, base, size, device);
    } else if is_pointer(w[slot]) {
        lemma_fill_ptr(w, mb, vb, level, table, pe, lim, virt, base, size, device);
    } else {
        lemma_fill_fresh(w, mb, vb, level, table, pe, lim, virt, base, size, device);
    }
}

/// A step that maps a whole entry with a descriptor.
#[verifier::spinoff_prover]
#[verifier::rlimit(100)]
proof fn lemma_fill_whole(w: Seq<u32>, mb: int, vb: u32, level: TableLevel, table: int, pe: int, lim: int, virt: int, base: int, size: int, device: bool)
    requires
        fill_pre(w, mb, vb, level, table, pe, lim, virt, base, size, device),
        size >= 4096,
        whole_entry(level, virt, base, step_len(level, virt, size)),
    ensures
        fill_post(w, mb, vb, level, table, pe, virt, base, size, device),
    decreases 3 - level_num(level), size, 0int,
{
    let a = virt;
    let t0 = (table - mb) / 4;
    lemma_indices(vb, level, a, size);
    let es = entry_size(level);
    let fs = step_len(level, a, size);
    let lo = desc_index(vb, a as u32, level) as int;
    let slot = t0 + lo;
    let d = descriptor(level, base as u32, device);
    let w1 = w.update(slot, d).update(slot + 1, 0u32);
    let f = foot(w, mb, vb, level, table, virt, base, size);
    let fr = foot(w, mb, vb, level, table, virt + fs, base + fs, size - fs);
    let wr = writes(w, mb, vb, level, table, virt + fs, base + fs, size - fs);
    assert(fill_spec(w, mb, vb, level, table, pe, virt, base, size, device) == fill_spec(
        w1, mb, vb, level, table, pe, virt + fs, base + fs, size - fs, device));
    assert(!fr.contains(slot));
    assert(!fr.contains(slot + 1));
    lemma_foot_below(w, mb, vb, level, table, lim, virt + fs, base + fs, size - fs);
    assert(agree_in(w1, w, fr));
    lemma_foot_depends(w, w1, mb, vb, level, table, lim, virt + fs, base + fs, size - fs);
    assert(f == set![slot, slot + 1].union(Set::<int>::empty()).union(fr));
    assert(writes(w, mb, vb, level, table, virt, base, size) == set![slot, slot + 1].union(wr));
    lemma_fill(w1, mb, vb, level, table, pe, lim, virt + fs, base + fs, size - fs, device);
    let res = fill_spec(w1, mb, vb, level, table, pe, virt + fs, base + fs, size - fs, device)->0;
    assert forall|i: int|
        0 <= i < w.len() && !writes(w, mb, vb, level, table, virt, base, size).contains(i) && !((pe - mb) / 4 <= i < (res.1 - mb) / 4)
        implies #[trigger] res.0[i] == w[i] by {
        assert(!wr.contains(i));
        assert(res.0[i] == w1[i]);
    }
    assert(res.0[slot] == d) by {
        assert(!wr.contains(slot));
        assert(slot < lim);
    }
    lemma_descriptors(level, base as u32, device);
    assert forall|w3: Seq<u32>, va: u32|
        virt <= va < virt + size && w3.len() == w.len() && agree_in(w3, res.0, f) && agree_on(
            w3,
            res.0,
            (pe - mb) / 4,
            (res.1 - mb) / 4,
        ) implies #[trigger] translate(w3, mb, vb, level, table, va) == Some(base + va - virt) by {
        if va < a + fs {
            assert(desc_index(vb, va, level) == lo);
            assert(f.contains(slot));
            assert(w3[slot] == d);
            assert((va as int) % es == va - a) by {
                lemma_step(vb, level, a, size);
                vstd::arithmetic::div_mod::lemma_div_is_ordered(a, va as int, es);
                vstd::arithmetic::div_mod::lemma_div_is_ordered(va as int, a + fs - 1, es);
                vstd::arithmetic::div_mod::lemma_fundamental_div_mod(va as int, es);
                vstd::arithmetic::div_mod::lemma_fundamental_div_mod(a, es);
            }
        } else {
            assert forall|i: int| #[trigger] fr.contains(i) implies w3[i] == res.0[i] by {
                assert(f.contains(i));
            }
            assert(translate(w3, mb, vb, level, table, va) == Some((base + fs) + va - (virt + fs)));
        }
    }
}

/// The parts of a step through an existing next-level table.
#[verifier::spinoff_prover]
#[verifier::rlimit(100)]
proof fn lemma_ptr_parts(w: Seq<u32>, mb: int, vb: u32, level: TableLevel, table: int, pe: int, lim: int, virt: int, base: int, size: int, device: bool)
    requires
        fill_pre(w, mb, vb, level, table, pe, lim, virt, base, size, device),
        size >= 4096,
        !whole_entry(level, virt, base, step_len(level, virt, size)),
        is_pointer(w[(table - mb) / 4 + desc_index(vb, virt as u32, level)]),
    ensures
        ({
            let fs = step_len(level, virt, size);
            let slot = (table - mb) / 4 + desc_index(vb, virt as u32, level);
            let nl = next_level(level);
            let t = (w[slot] & ADDR_MASK_LONG) as int;
            let fsub = foot(w, mb, vb, nl, t, virt, base, fs);
            let wsub = writes(w, mb, vb, nl, t, virt, base, fs);
            let fr = foot(w, mb, vb, level, table, virt + fs, base + fs, size - fs);
            let wr = writes(w, mb, vb, level, table, virt + fs, base + fs, size - fs);
            &&& level != TableLevel::Level3
            &&& 0 <= slot
            &&& slot + 1 < lim
            &&& foot(w, mb, vb, level, table, virt, base, size) == set![slot, slot + 1].union(fsub).union(fr)
            &&& writes(w, mb, vb, level, table, virt, base, size) == wsub.union(wr)
            &&& !fsub.contains(slot)
            &&& !fsub.contains(slot + 1)
            &&& !fr.contains(slot)
            &&& !fr.contains(slot + 1)
            &&& fsub.disjoint(fr)
            &&& tree_ok(w, mb, vb, level, table, lim, virt + fs, base + fs, size - fs)
            &&& forall|i: int| #[trigger] fsub.contains(i) ==> 0 <= i < lim
            &&& forall|i: int| #[trigger] fr.contains(i) ==> 0 <= i < lim
            &&& forall|i: int| #[trigger] wsub.contains(i) ==> fsub.contains(i)
            &&& forall|i: int| #[trigger] wr.contains(i) ==> fr.contains(i)
            &&& fill_pre(w, mb, vb, nl, t, pe, lim, virt, base, fs, device)
        }),
{
    lemma_indices(vb, level, virt, size);
    let fs = step_len(level, virt, size);
    let slot = (table - mb) / 4 + desc_index(vb, virt as u32, level);
    let nl = next_level(level);
    let t = (w[slot] & ADDR_MASK_LONG) as int;
    assert(level != TableLevel::Level3);
    assert(tree_ok(w, mb, vb, nl, t, lim, virt, base, fs));
    lemma_foot_below(w, mb, vb, nl, t, lim, virt, base, fs);
    lemma_foot_below(w, mb, vb, level, table, lim, virt + fs, base + fs, size - fs);
    assert(fill_spec(w, mb, vb, nl, t, pe, virt, base, fs, device) is Some);
}

/// A step through an existing next-level table, unfolded.
#[verifier::spinoff_prover]
#[verifier::rlimit(100)]
proof fn lemma_ptr_unfold(w: Seq<u32>, mb: int, vb: u32, level: TableLevel, table: int, pe: int, virt: int, base: int, size: int, device: bool)
    requires
        fill_spec(w, mb, vb, level, table, pe, virt, base, size, device) is Some,
        size >= 4096,
        table >= mb,
        (table - mb) % 4 == 0,
        0 <= virt <= u32::MAX,
        !whole_entry(level, virt, base, step_len(level, virt, size)),
        is_pointer(w[(table - mb) / 4 + desc_index(vb, virt as u32, level)]),
    ensures
        ({
            let fs = step_len(level, virt, size);
            let slot = (table - mb) / 4 + desc_index(vb, virt as u32, level);
            let nl = next_level(level);
            let desc = w[slot];
            let t = (desc & ADDR_MASK_LONG) as int;
            let inner = fill_spec(w, mb, vb, nl, t, pe, virt, base, fs, device)->0;
            let w1 = inner.0.update(slot, desc).update(slot + 1, w[slot + 1]);
            fill_spec(w, mb, vb, level, table, pe, virt, base, size, device) == fill_spec(
                w1, mb, vb, level, table, inner.1, virt + fs, base + fs, size - fs, device)
        }),
{
}

/// The first step's addresses of a step through an existing next-level
/// table translate through that table.
#[verifier::spinoff_prover]
#[verifier::rlimit(100)]
proof fn lemma_ptr_first(w: Seq<u32>, mb: int, vb: u32, level: TableLevel, table: int, pe: int, lim: int, virt: int, base: int, size: int, device: bool, w3: Seq<u32>, va: u32)
    requires
        fill_pre(w, mb, vb, level, table, pe, lim, virt, base, size, device),
        size >= 4096,
        ({
            let fs = step_len(level, virt, size);
            let slot = (table - mb) / 4 + desc_index(vb, virt as u32, level);
            let nl = next_level(level);
            let desc = w[slot];
            let t = (desc & ADDR_MASK_LONG) as int;
            let inner = fill_spec(w, mb, vb, nl, t, pe, virt, base, fs, device)->0;
            let w1 = inner.0.update(slot, desc).update(slot + 1, w[slot + 1]);
            let res = fill_spec(w, mb, vb, level, table, pe, virt, base, size, device)->0;
            &&& !whole_entry(level, virt, base, fs)
            &&& is_pointer(desc)
            &&& fill_post(w, mb, vb, nl, t, pe, virt, base, fs, device)
            &&& res == fill_spec(w1, mb, vb, level, table, inner.1, virt + fs, base + fs, size - fs, device)->0
            &&& fill_post(w1, mb, vb, level, table, inner.1, virt + fs, base + fs, size - fs, device)
            &&& writes(w1, mb, vb, level, table, virt + fs, base + fs, size - fs) == writes(w, mb, vb, level, table, virt + fs, base + fs, size - fs)
            &&& virt <= va < virt + fs
            &&& w3.len() == w.len()
            &&& agree_in(w3, res.0, foot(w, mb, vb, level, table, virt, base, size))
            &&& agree_on(w3, res.0, (pe - mb) / 4, (res.1 - mb) / 4)
        }),
    ensures
        translate(w3, mb, vb, level, table, va) == Some(base + va - virt),
{
    let t0 = (table - mb) / 4;
    lemma_indices(vb, level, virt, size);
    let fs = step_len(level, virt, size);
    let lo = desc_index(vb, virt as u32, level) as int;
    let slot = t0 + lo;
    let nl = next_level(level);
    let desc = w[slot];
    let t = (desc & ADDR_MASK_LONG) as int;
    let inner = fill_spec(w, mb, vb, nl, t, pe, virt, base, fs, device)->0;
    let w1 = inner.0.update(slot, desc).update(slot + 1, w[slot + 1]);
    let res = fill_spec(w, mb, vb, level, table, pe, virt, base, size, device)->0;
    let f = foot(w, mb, vb, level, table, virt, base, size);
    let fsub = foot(w, mb, vb, nl, t, virt, base, fs);
    let fr = foot(w, mb, vb, level, table, virt + fs, base + fs, size - fs);
    let wr = writes(w, mb, vb, level, table, virt + fs, base + fs, size - fs);
    lemma_ptr_parts(w, mb, vb, level, table, pe, lim, virt, base, size, device);
    assert(res.0[slot] == w1[slot]) by {
        assert(!wr.contains(slot));
    }
    assert(desc_index(vb, va, level) == lo);
    assert(f.contains(slot));
    assert(w3[slot] == desc);
    lemma_pointer_valid(desc);
    assert(translate(w3, mb, vb, level, table, va) == translate(w3, mb, vb, nl, t, va));
    assert(agree_in(w3, inner.0, fsub)) by {
        assert forall|i: int| #[trigger] fsub.contains(i) implies w3[i] == inner.0[i] by {
            assert(f.contains(i));
            assert(!fr.contains(i));
            assert(!wr.contains(i));
            assert(i < lim);
            assert(i != slot && i != slot + 1);
            assert(res.0[i] == w1[i]);
        }
    }
    assert(agree_on(w3, inner.0, (pe - mb) / 4, (inner.1 - mb) / 4)) by {
        assert forall|i: int| (pe - mb) / 4 <= i < (inner.1 - mb) / 4 implies #[trigger] w3[i] == inner.0[i] by {
            assert(w3[i] == res.0[i]);
            assert(!wr.contains(i));
            assert(res.0[i] == w1[i]);
        }
    }
}

/// A step through the next-level table that the entry already points to.
#[verifier::spinoff_prover]
#[verifier::rlimit(100)]
proof fn lemma_fill_ptr(w: Seq<u32>, mb: int, vb: u32, level: TableLevel, table: int, pe: int, lim: int, virt: int, base: int, size: int, device: bool)
    requires
        fill_pre(w, mb, vb, level, table, pe, lim, virt, base, size, device),
        size >= 4096,
        !whole_entry(level, virt, base, step_len(level, virt, size)),
        is_pointer(w[(table - mb) / 4 + desc_index(vb, virt as u32, level)]),
    ensures
        fill_post(w, mb, vb, level, table, pe, virt, base, size, device),
    decreases 3 - level_num(level), size, 0int,
{
    let a = virt;
    let t0 = (table - mb) / 4;
    lemma_indices(vb, level, a, size);
    let fs = step_len(level, a, size);
    let lo = desc_index(vb, a as u32, level) as int;
    let slot = t0 + lo;
    let nl = next_level(level);
    let desc = w[slot];
    let t = (desc & ADDR_MASK_LONG) as int;
    let f = foot(w, mb, vb, level, table, virt, base, size);
    let fsub = foot(w, mb, vb, nl, t, virt, base, fs);
    let wsub = writes(w, mb, vb, nl, t, virt, base, fs);
    let fr = foot(w, mb, vb, level, table, virt + fs, base + fs, size - fs);
    let wr = writes(w, mb, vb, level, table, virt + fs, base + fs, size - fs);
    lemma_ptr_parts(w, mb, vb, level, table, pe, lim, virt, base, size, device);
    lemma_fill(w, mb, vb, nl, t, pe, lim, virt, base, fs, device);
    let inner = fill_spec(w, mb, vb, nl, t, pe, virt, base, fs, device)->0;
    let w1 = inner.0.update(slot, desc).update(slot + 1, w[slot + 1]);
    lemma_ptr_unfold(w, mb, vb, level, table, pe, virt, base, size, device);
    assert(agree_in(w1, w, fr)) by {
        assert forall|i: int| #[trigger] fr.contains(i) implies w1[i] == w[i] by {
            assert(!fsub.contains(i));
            assert(!wsub.contains(i));
            assert(i < lim);
            assert(i != slot && i != slot + 1);
        }
    }
    lemma_foot_depends(w, w1, mb, vb, level, table, lim, virt + fs, base + fs, size - fs);
    assert(fill_pre(w1, mb, vb, level, table, inner.1, lim, virt + fs, base + fs, size - fs, device));
    lemma_fill(w1, mb, vb, level, table, inner.1, lim, virt + fs, base + fs, size - fs, device);
    let res = fill_spec(w1, mb, vb, level, table, inner.1, virt + fs, base + fs, size - fs, device)->0;
    assert forall|i: int|
        0 <= i < w.len() && !writes(w, mb, vb, level, table, virt, base, size).contains(i) && !((pe - mb) / 4 <= i < (res.1 - mb) / 4)
        implies #[trigger] res.0[i] == w[i] by {
        assert(!wr.contains(i));
        assert(!wsub.contains(i));
        assert(res.0[i] == w1[i]);
        if i != slot && i != slot + 1 {
            assert(w1[i] == inner.0[i]);
        }
    }
    assert forall|w3: Seq<u32>, va: u32|
        virt <= va < virt + size && w3.len() == w.len() && agree_in(w3, res.0, f) && agree_on(
            w3,
            res.0,
            (pe - mb) / 4,
            (res.1 - mb) / 4,
        ) implies #[trigger] translate(w3, mb, vb, level, table, va) == Some(base + va - virt) by {
        if va < a + fs {
            lemma_ptr_first(w, mb, vb, level, table, pe, lim, virt, base, size, device, w3, va);
        } else {
            assert forall|i: int| #[trigger] fr.contains(i) implies w3[i] == res.0[i] by {
                assert(f.contains(i));
            }
            assert(translate(w3, mb, vb, level, table, va) == Some((base + fs) + va - (virt + fs)));
        }
    }
}

/// The parts of a step through a new, cleared next-level table.
#[verifier::spinoff_prover]
#[verifier::rlimit(100)]
proof fn lemma_fresh_parts(w: Seq<u32>, mb: int, vb: u32, level: TableLevel, table: int, pe: int, lim: int, virt: int, base: int, size: int, device: bool)
    requires
        fill_pre(w, mb, vb, level, table, pe, lim, virt, base, size, device),
        size >= 4096,
        !whole_entry(level, virt, base, step_len(level, virt, size)),
        !is_pointer(w[(table - mb) / 4 + desc_index(vb, virt as u32, level)]),
    ensures
        ({
            let fs = step_len(level, virt, size);
            let slot = (table - mb) / 4 + desc_index(vb, virt as u32, level);
            let nl = next_level(level);
            let tn = (pe - mb) / 4;
            let pe1 = pe + TABLE_SIZE_LONG;
            let w0 = zero_table(w, tn);
            let inner = fill_spec(w0, mb, vb, nl, pe, pe1, virt, base, fs, device)->0;
            let w1 = inner.0.update(slot, pointer_entry(pe as u32)).update(slot + 1, 0u32);
            let fr = foot(w, mb, vb, level, table, virt + fs, base + fs, size - fs);
            let wr = writes(w, mb, vb, level, table, virt + fs, base + fs, size - fs);
            let fsub = foot(w0, mb, vb, nl, pe, virt, base, fs);
            let wsub = writes(w0, mb, vb, nl, pe, virt, base, fs);
            &&& level != TableLevel::Level3
            &&& 0 <= slot
            &&& slot + 1 < lim
            &&& lim <= tn
            &&& tn + 1024 <= w.len()
            &&& pe + TABLE_SIZE_LONG <= u32::MAX
            &&& foot(w, mb, vb, level, table, virt, base, size) == set![slot, slot + 1].union(Set::<int>::empty()).union(fr)
            &&& writes(w, mb, vb, level, table, virt, base, size) == set![slot, slot + 1].union(wr)
            &&& !fr.contains(slot)
            &&& !fr.contains(slot + 1)
            &&& tree_ok(w, mb, vb, level, table, lim, virt + fs, base + fs, size - fs)
            &&& forall|i: int| #[trigger] fr.contains(i) ==> 0 <= i < lim
            &&& forall|i: int| #[trigger] wr.contains(i) ==> fr.contains(i)
            &&& forall|i: int| #[trigger] fsub.contains(i) ==> tn <= i < tn + 1024
            &&& forall|i: int| #[trigger] wsub.contains(i) ==> fsub.contains(i)
            &&& fill_pre(w0, mb, vb, nl, pe, pe1, tn + 1024, virt, base, fs, device)
            &&& fill_spec(w, mb, vb, level, table, pe, virt, base, size, device) == fill_spec(
                w1, mb, vb, level, table, inner.1, virt + fs, base + fs, size - fs, device)
        }),
{
    lemma_indices(vb, level, virt, size);
    let fs = step_len(level, virt, size);
    let nl = next_level(level);
    let tn = (pe - mb) / 4;
    let w0 = zero_table(w, tn);
    assert(level != TableLevel::Level3);
    lemma_foot_below(w, mb, vb, level, table, lim, virt + fs, base + fs, size - fs);
    lemma_desc_index(vb, nl, (virt + fs - 1) as u32);
    lemma_desc_index(vb, nl, virt as u32);
    lemma_descriptors(level, pe as u32, device);
    assert forall|i: int|
        tn + desc_index(vb, virt as u32, nl) <= i <= tn + desc_index(vb, (virt + fs - 1) as u32, nl)
        implies !is_pointer(#[trigger] w0[i]) by {
        assert(w0[i] == 0u32);
    }
    lemma_fresh(w0, mb, vb, nl, pe, tn + 1024, virt, base, fs);
    lemma_foot_below(w0, mb, vb, nl, pe, tn + 1024, virt, base, fs);
}

/// The rest of a step through a new table meets `fill_pre`.
#[verifier::spinoff_prover]
#[verifier::rlimit(100)]
proof fn lemma_fresh_rest_pre(w: Seq<u32>, mb: int, vb: u32, level: TableLevel, table: int, pe: int, lim: int, virt: int, base: int, size: int, device: bool)
    requires
        fill_pre(w, mb, vb, level, table, pe, lim, virt, base, size, device),
        size >= 4096,
        !whole_entry(level, virt, base, step_len(level, virt, size)),
        !is_pointer(w[(table - mb) / 4 + desc_index(vb, virt as u32, level)]),
        ({
            let fs = step_len(level, virt, size);
            let slot = (table - mb) / 4 + desc_index(vb, virt as u32, level);
            let nl = next_level(level);
            let tn = (pe - mb) / 4;
            let pe1 = pe + TABLE_SIZE_LONG;
            let w0 = zero_table(w, tn);
            let inner = fill_spec(w0, mb, vb, nl, pe, pe1, virt, base, fs, device)->0;
            let w1 = inner.0.update(slot, pointer_entry(pe as u32)).update(slot + 1, 0u32);
            fill_post(w0, mb, vb, nl, pe, pe1, virt, base, fs, device)
        }),
    ensures
        ({
            let fs = step_len(level, virt, size);
            let slot = (table - mb) / 4 + desc_index(vb, virt as u32, level);
            let nl = next_level(level);
            let tn = (pe - mb) / 4;
            let pe1 = pe + TABLE_SIZE_LONG;
            let w0 = zero_table(w, tn);
            let inner = fill_spec(w0, mb, vb, nl, pe, pe1, virt, base, fs, device)->0;
            let w1 = inner.0.update(slot, pointer_entry(pe as u32)).update(slot + 1, 0u32);
            &&& fill_pre(w1, mb, vb, level, table, inner.1, lim, virt + fs, base + fs, size - fs, device)
            &&& writes(w1, mb, vb, level, table, virt + fs, base + fs, size - fs) == writes(w, mb, vb, level, table, virt + fs, base + fs, size - fs)
            &&& foot(w1, mb, vb, level, table, virt + fs, base + fs, size - fs) == foot(w, mb, vb, level, table, virt + fs, base + fs, size - fs)
        }),
{
    let a = virt;
    let t0 = (table - mb) / 4;
    lemma_indices(vb, level, a, size);
    let fs = step_len(level, a, size);
    let lo = desc_index(vb, a as u32, level) as int;
    let slot = t0 + lo;
    let nl = next_level(level);
    let tn = (pe - mb) / 4;
    let pe1 = pe + TABLE_SIZE_LONG;
    let w0 = zero_table(w, tn);
    let f = foot(w, mb, vb, level, table, virt, base, size);
    let fr = foot(w, mb, vb, level, table, virt + fs, base + fs, size - fs);
    let wr = writes(w, mb, vb, level, table, virt + fs, base + fs, size - fs);
    let fsub = foot(w0, mb, vb, nl, pe, virt, base, fs);
    let wsub = writes(w0, mb, vb, nl, pe, virt, base, fs);
    lemma_fresh_parts(w, mb, vb, level, table, pe, lim, virt, base, size, device);
    let inner = fill_spec(w0, mb, vb, nl, pe, pe1, virt, base, fs, device)->0;
    let p = pointer_entry(pe as u32);
    let w1 = inner.0.update(slot, p).update(slot + 1, 0u32);
    assert(agree_in(w1, w, fr)) by {
        assert forall|i: int| #[trigger] fr.contains(i) implies w1[i] == w[i] by {
            assert(i < lim);
            assert(i != slot && i != slot + 1);
            assert(!wsub.contains(i));
            assert(inner.0[i] == w0[i]);
        }
    }
    lemma_foot_depends(w, w1, mb, vb, level, table, lim, virt + fs, base + fs, size - fs);
}

/// The first step's addresses of a step through a new table translate
/// through that table.
#[verifier::spinoff_prover]
#[verifier::rlimit(100)]
proof fn lemma_fresh_first(w: Seq<u32>, mb: int, vb: u32, level: TableLevel, table: int, pe: int, lim: int, virt: int, base: int, size: int, device: bool, w3: Seq<u32>, va: u32)
    requires
        fill_pre(w, mb, vb, level, table, pe, lim, virt, base, size, device),
        size >= 4096,
        !whole_entry(level, virt, base, step_len(level, virt, size)),
        !is_pointer(w[(table - mb) / 4 + desc_index(vb, virt as u32, level)]),
        ({
            let fs = step_len(level, virt, size);
            let slot = (table - mb) / 4 + desc_index(vb, virt as u32, level);
            let nl = next_level(level);
            let tn = (pe - mb) / 4;
            let pe1 = pe + TABLE_SIZE_LONG;
            let w0 = zero_table(w, tn);
            let inner = fill_spec(w0, mb, vb, nl, pe, pe1, virt, base, fs, device)->0;
            let w1 = inner.0.update(slot, pointer_entry(pe as u32)).update(slot + 1, 0u32);
            let res = fill_spec(w1, mb, vb, level, table, inner.1, virt + fs, base + fs, size - fs, device)->0;
            &&& fill_post(w0, mb, vb, nl, pe, pe1, virt, base, fs, device)
            &&& fill_post(w1, mb, vb, level, table, inner.1, virt + fs, base + fs, size - fs, device)
            &&& writes(w1, mb, vb, level, table, virt + fs, base + fs, size - fs) == writes(w, mb, vb, level, table, virt + fs, base + fs, size - fs)
            &&& virt <= va < virt + fs
            &&& w3.len() == w.len()
            &&& agree_in(w3, res.0, foot(w, mb, vb, level, table, virt, base, size))
            &&& agree_on(w3, res.0, (pe - mb) / 4, (res.1 - mb) / 4)
        }),
    ensures
        translate(w3, mb, vb, level, table, va) == Some(base + va - virt),
{
    let a = virt;
    let t0 = (table - mb) / 4;
    lemma_indices(vb, level, a, size);
    let fs = step_len(level, a, size);
    let lo = desc_index(vb, a as u32, level) as int;
    let slot = t0 + lo;
    let nl = next_level(level);
    let tn = (pe - mb) / 4;
    let pe1 = pe + TABLE_SIZE_LONG;
    let w0 = zero_table(w, tn);
    let f = foot(w, mb, vb, level, table, virt, base, size);
    let fr = foot(w, mb, vb, level, table, virt + fs, base + fs, size - fs);
    let wr = writes(w, mb, vb, level, table, virt + fs, base + fs, size - fs);
    let fsub = foot(w0, mb, vb, nl, pe, virt, base, fs);
    let wsub = writes(w0, mb, vb, nl, pe, virt, base, fs);
    lemma_fresh_parts(w, mb, vb, level, table, pe, lim, virt, base, size, device);
    let inner = fill_spec(w0, mb, vb, nl, pe, pe1, virt, base, fs, device)->0;
    let p = pointer_entry(pe as u32);
    let w1 = inner.0.update(slot, p).update(slot + 1, 0u32);
    let res = fill_spec(w1, mb, vb, level, table, inner.1, virt + fs, base + fs, size - fs, device)->0;
    assert(res.0[slot] == p) by {
        assert(!wr.contains(slot));
    }
    assert((pe as u32) as int == pe);
    lemma_descriptors(level, pe as u32, device);
    assert(pe1 <= inner.1);
    assert(desc_index(vb, va, level) == lo);
    assert(f.contains(slot));
    assert(w3[slot] == p);
    assert(translate(w3, mb, vb, level, table, va) == translate(w3, mb, vb, nl, pe, va));
    assert(agree_in(w3, inner.0, fsub)) by {
        assert forall|i: int| #[trigger] fsub.contains(i) implies w3[i] == inner.0[i] by {
            assert(tn <= i < tn + 1024);
            assert(w3[i] == res.0[i]);
            assert(!wr.contains(i));
            assert(res.0[i] == w1[i]);
        }
    }
    assert(agree_on(w3, inner.0, (pe1 - mb) / 4, (inner.1 - mb) / 4)) by {
        assert forall|i: int| (pe1 - mb) / 4 <= i < (inner.1 - mb) / 4 implies #[trigger] w3[i] == inner.0[i] by {
            assert(w3[i] == res.0[i]);
            assert(!wr.contains(i));
            assert(res.0[i] == w1[i]);
        }
    }
}

/// The facts of a step through a new table, from those of its two parts.
#[verifier::spinoff_prover]
#[verifier::rlimit(100)]
proof fn lemma_fresh_post(w: Seq<u32>, mb: int, vb: u32, level: TableLevel, table: int, pe: int, lim: int, virt: int, base: int, size: int, device: bool)
    requires
        fill_pre(w, mb, vb, level, table, pe, lim, virt, base, size, device),
        size >= 4096,
        !whole_entry(level, virt, base, step_len(level, virt, size)),
        !is_pointer(w[(table - mb) / 4 + desc_index(vb, virt as u32, level)]),
        ({
            let fs = step_len(level, virt, size);
            let slot = (table - mb) / 4 + desc_index(vb, virt as u32, level);
            let nl = next_level(level);
            let tn = (pe - mb) / 4;
            let pe1 = pe + TABLE_SIZE_LONG;
            let w0 = zero_table(w, tn);
            let inner = fill_spec(w0, mb, vb, nl, pe, pe1, virt, base, fs, device)->0;
            let w1 = inner.0.update(slot, pointer_entry(pe as u32)).update(slot + 1, 0u32);
            &&& fill_post(w0, mb, vb, nl, pe, pe1, virt, base, fs, device)
            &&& fill_post(w1, mb, vb, level, table, inner.1, virt + fs, base + fs, size - fs, device)
            &&& writes(w1, mb, vb, level, table, virt + fs, base + fs, size - fs) == writes(w, mb, vb, level, table, virt + fs, base + fs, size - fs)
            &&& foot(w1, mb, vb, level, table, virt + fs, base + fs, size - fs) == foot(w, mb, vb, level, table, virt + fs, base + fs, size - fs)
        }),
    ensures
        fill_post(w, mb, vb, level, table, pe, virt, base, size, device),
{
    let a = virt;
    let t0 = (table - mb) / 4;
    lemma_indices(vb, level, a, size);
    let fs = step_len(level, a, size);
    let lo = desc_index(vb, a as u32, level) as int;
    let slot = t0 + lo;
    let nl = next_level(level);
    let tn = (pe - mb) / 4;
    let pe1 = pe + TABLE_SIZE_LONG;
    let w0 = zero_table(w, tn);
    let f = foot(w, mb, vb, level, table, virt, base, size);
    let fr = foot(w, mb, vb, level, table, virt + fs, base + fs, size - fs);
    let wr = writes(w, mb, vb, level, table, virt + fs, base + fs, size - fs);
    let fsub = foot(w0, mb, vb, nl, pe, virt, base, fs);
    let wsub = writes(w0, mb, vb, nl, pe, virt, base, fs);
    lemma_fresh_parts(w, mb, vb, level, table, pe, lim, virt, base, size, device);
    let inner = fill_spec(w0, mb, vb, nl, pe, pe1, virt, base, fs, device)->0;
    let p = pointer_entry(pe as u32);
    let w1 = inner.0.update(slot, p).update(slot + 1, 0u32);
    let res = fill_spec(w1, mb, vb, level, table, inner.1, virt + fs, base + fs, size - fs, device)->0;
    assert forall|i: int|
        0 <= i < w.len() && !writes(w, mb, vb, level, table, virt, base, size).contains(i) && !((pe - mb) / 4 <= i < (res.1 - mb) / 4)
        implies #[trigger] res.0[i] == w[i] by {
        assert(!wr.contains(i));
        assert(res.0[i] == w1[i]);
        assert(i != slot && i != slot + 1);
        assert(!wsub.contains(i));
        assert(inner.0[i] == w0[i]);
    }
    assert forall|w3: Seq<u32>, va: u32|
        virt <= va < virt + size && w3.len() == w.len() && agree_in(w3, res.0, f) && agree_on(
            w3,
            res.0,
            (pe - mb) / 4,
            (res.1 - mb) / 4,
        ) implies #[trigger] translate(w3, mb, vb, level, table, va) == Some(base + va - virt) by {
        if va < a + fs {
            lemma_fresh_first(w, mb, vb, level, table, pe, lim, virt, base, size, device, w3, va);
        } else {
            assert forall|i: int| #[trigger] fr.contains(i) implies w3[i] == res.0[i] by {
                assert(f.contains(i));
            }
            assert(translate(w3, mb, vb, level, table, va) == Some((base + fs) + va - (virt + fs)));
        }
    }
}

/// A step through a new, cleared next-level table, since the entry does not
/// point to a table.
#[verifier::spinoff_prover]
#[verifier::rlimit(100)]
proof fn lemma_fill_fresh(w: Seq<u32>, mb: int, vb: u32, level: TableLevel, table: int, pe: int, lim: int, virt: int, base: int, size: int, device: bool)
    requires
        fill_pre(w, mb, vb, level, table, pe, lim, virt, base, size, device),
        size >= 4096,
        !whole_entry(level, virt, base, step_len(level, virt, size)),
        !is_pointer(w[(table - mb) / 4 + desc_index(vb, virt as u32, level)]),
    ensures
        fill_post(w, mb, vb, level, table, pe, virt, base, size, device),
    decreases 3 - level_num(level), size, 0int,
{
    let fs = step_len(level, virt, size);
    let slot = (table - mb) / 4 + desc_index(vb, virt as u32, level);
    let nl = next_level(level);
    let tn = (pe - mb) / 4;
    let pe1 = pe + TABLE_SIZE_LONG;
    let w0 = zero_table(w, tn);
    lemma_fresh_parts(w, mb, vb, level, table, pe, lim, virt, base, size, device);
    lemma_fill(w0, mb, vb, nl, pe, pe1, tn + 1024, virt, base, fs, device);
    let inner = fill_spec(w0, mb, vb, nl, pe, pe1, virt, base, fs, device)->0;
    let w1 = inner.0.update(slot, pointer_entry(pe as u32)).update(slot + 1, 0u32);
    lemma_fresh_rest_pre(w, mb, vb, level, table, pe, lim, virt, base, size, device);
    lemma_fill(w1, mb, vb, level, table, inner.1, lim, virt + fs, base + fs, size - fs, device);
    lemma_fresh_post(w, mb, vb, level, table, pe, lim, virt, base, size, device);
}


/// Mapping a page-aligned range of `size` bytes from physical address
/// `base` at virtual address `virt`, through the table at `ps` of the level
/// that `virt` starts at, translates every address of the range to its
/// physical address: `virt + o` translates to `base + o`. The tables that
/// earlier maps built may be in place: an entry on the range's path that
/// points to a table is gone through, any other is replaced; the existing
/// tables are well formed (`tree_ok`) and lie below the table area, which
/// starts at `pe`. The range lies within the span of the table at `ps`.
pub proof fn law_map_translates(w: Seq<u32>, mb: int, vb: u32, ps: u32, pe: int, virt: u32, base: int, size: int, device: bool)
    requires
        map_spec(w, mb, vb, ps, pe, virt, base, size, device) is Some,
        fill_shape(w, mb, vb, first_level(vb, virt), ps as int, pe, (pe - mb) / 4, virt as int, base, size),
        tree_ok(w, mb, vb, first_level(vb, virt), ps as int, (pe - mb) / 4, virt as int, base, size),
    ensures
        ({
            let res = map_spec(w, mb, vb, ps, pe, virt, base, size, device)->0;
            &&& pe <= res.1
            &&& forall|va: u32|
                virt <= va < virt + size ==> #[trigger] translate(res.0, mb, vb, first_level(vb, virt), ps as int, va)
                    == Some(base + va - virt)
        }),
{
    let l = first_level(vb, virt);
    lemma_fill(w, mb, vb, l, ps as int, pe, (pe - mb) / 4, virt as int, base, size, device);
    let res = map_spec(w, mb, vb, ps, pe, virt, base, size, device)->0;
    assert forall|va: u32| virt <= va < virt + size implies #[trigger] translate(res.0, mb, vb, l, ps as int, va) == Some(
        base + va - virt,
    ) by {
        assert(agree_on(res.0, res.0, (pe - mb) / 4, (res.1 - mb) / 4));
        assert(agree_in(res.0, res.0, foot(w, mb, vb, l, ps as int, virt as int, base, size)));
    }
}

/// A map changes only the entries it writes (`writes`: both words of the
/// entries on the range's path that become descriptors or pointers to new
/// tables) and the new tables at the end of the table area. So the
/// translation of every address whose walk reads none of those words and no
/// word of the table area from `pe` on stays what it was: what earlier maps
/// made of the addresses outside the range survives.
pub proof fn law_map_frame(w: Seq<u32>, mb: int, vb: u32, ps: u32, pe: int, virt: u32, base: int, size: int, device: bool)
    requires
        map_spec(w, mb, vb, ps, pe, virt, base, size, device) is Some,
        fill_shape(w, mb, vb, first_level(vb, virt), ps as int, pe, (pe - mb) / 4, virt as int, base, size),
        tree_ok(w, mb, vb, first_level(vb, virt), ps as int, (pe - mb) / 4, virt as int, base, size),
    ensures
        ({
            let l = first_level(vb, virt);
            let res = map_spec(w, mb, vb, ps, pe, virt, base, size, device)->0;
            let wr = writes(w, mb, vb, l, ps as int, virt as int, base, size);
            &&& res.0.len() == w.len()
            &&& forall|i: int| 0 <= i < (pe - mb) / 4 && !wr.contains(i) ==> #[trigger] res.0[i] == w[i]
            &&& forall|va: u32|
                (forall|i: int| #[trigger] reads(w, mb, vb, l, ps as int, va).contains(i) ==> 0 <= i < (pe - mb) / 4
                    && !wr.contains(i)) ==> #[trigger] translate(res.0, mb, vb, l, ps as int, va) == translate(
                    w,
                    mb,
                    vb,
                    l,
                    ps as int,
                    va,
                )
        }),
{
    let l = first_level(vb, virt);
    lemma_fill(w, mb, vb, l, ps as int, pe, (pe - mb) / 4, virt as int, base, size, device);
    let res = map_spec(w, mb, vb, ps, pe, virt, base, size, device)->0;
    let wr = writes(w, mb, vb, l, ps as int, virt as int, base, size);
    assert forall|va: u32|
        (forall|i: int| #[trigger] reads(w, mb, vb, l, ps as int, va).contains(i) ==> 0 <= i < (pe - mb) / 4 && !wr.contains(
            i,
        )) implies #[trigger] translate(res.0, mb, vb, l, ps as int, va) == translate(w, mb, vb, l, ps as int, va) by {
        lemma_reads(w, res.0, mb, vb, l, ps as int, va);
    }
}

/// A direct map of a page-aligned range translates every address of the
/// range: `virtual_base + a` translates to `a` for each physical address `a`
/// of the range, under the conditions of `law_map_translates`.
pub proof fn law_direct_map_translates(w: Seq<u32>, mb: int, vb: u32, ps: u32, pe: int, base: u32, size: int, device: bool)
    requires
        direct_map_spec(w, mb, vb, ps, pe, base, size, device) is Some,
        vb + base <= u32::MAX,
        fill_shape(w, mb, vb, first_level(vb, (vb + base) as u32), ps as int, pe, (pe - mb) / 4, vb + base, base as int, size),
        tree_ok(w, mb, vb, first_level(vb, (vb + base) as u32), ps as int, (pe - mb) / 4, vb + base, base as int, size),
    ensures
        ({
            let res = direct_map_spec(w, mb, vb, ps, pe, base, size, device)->0;
            let v = (vb + base) as u32;
            &&& pe <= res.1
            &&& forall|va: u32|
                v <= va < v + size ==> #[trigger] translate(res.0, mb, vb, first_level(vb, v), ps as int, va) == Some(
                    va - vb,
                )
        }),
{
    let v = (vb + base) as u32;
    law_map_translates(w, mb, vb, ps, pe, v, base as int, size, device);
}

} // verus!
