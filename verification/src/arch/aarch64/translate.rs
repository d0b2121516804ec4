//! Address translation through AArch64 translation tables.
//!
//! `translate` walks the tables as the MMU does with 4 KiB granules. The
//! laws below state that mapping a page-aligned range, into tables that
//! earlier maps may have built, translates every virtual address of the range
//! to its physical address (`virtual_base + virt + o` is reached at
//! `base + o`), and that the translations the map does not touch stay as
//! they were.

use vstd::prelude::*;
use crate::arch::aarch64::mm::{
    attr_flag, descriptor, desc_index, direct_map_spec, entry_size, fill_spec, level_num, map_spec, next_level,
    pointer_entry, whole_entry, zero_table, TableLevel, ADDR_MASK, TABLE_SIZE,
};

verus! {

/// The physical address that virtual address `va` translates to through
/// the table of level `level` at physical address `table`, `None` when the
/// address is not mapped.
///
/// An entry is valid when bit 0 is set. A valid Level 4 entry maps a page; a
/// valid Level 2 or Level 3 entry with bit 1 clear maps a block; any other
/// valid entry points to the next-level table.
pub open spec fn translate(w: Seq<u64>, mb: int, level: TableLevel, table: int, va: u64) -> Option<int>
    decreases 4 - level_num(level),
{
    if table < mb || (table - mb) % 8 != 0 {
        None
    } else {
        let slot = (table - mb) / 8 + desc_index(va, level);
        if slot >= w.len() {
            None
        } else {
            let d = w[slot];
            if d & 1u64 == 0u64 {
                None
            } else if level == TableLevel::Level4 {
                Some((d & ADDR_MASK) + (va as int) % 4096)
            } else if level != TableLevel::Level1 && d & 2u64 == 0u64 {
                Some((d & ADDR_MASK) + (va as int) % entry_size(level))
            } else {
                translate(w, mb, next_level(level), (d & ADDR_MASK) as int, va)
            }
        }
    }
}

/// The table index of an address at each level is its number of entry-sized
/// units modulo 512.
proof fn lemma_index_div(x: u64)
    by (bit_vector)
    ensures
        (x >> 39u64) & 511u64 == (x / 0x80_0000_0000u64) % 512,
        (x >> 30u64) & 511u64 == (x / 0x4000_0000u64) % 512,
        (x >> 21u64) & 511u64 == (x / 0x20_0000u64) % 512,
        (x >> 12u64) & 511u64 == (x / 0x1000u64) % 512,
{
}

/// The span of virtual addresses that one table of level `l` translates.
pub open spec fn cover(l: TableLevel) -> int {
    512 * entry_size(l)
}

/// The `n` addresses from `a` on lie within the span of one table of level
/// `l`.
pub open spec fn in_one_table(l: TableLevel, a: int, n: int) -> bool {
    n <= 0 || a / cover(l) == (a + n - 1) / cover(l)
}

/// The index of an address in a table of level `l` is its entry number
/// within the table's span.
proof fn lemma_desc_index(l: TableLevel, x: u64)
    ensures
        desc_index(x, l) == (x as int / entry_size(l)) % 512,
        desc_index(x, l) == x as int / entry_size(l) - 512 * (x as int / cover(l)),
{
    lemma_index_div(x);
    let es = entry_size(l);
    assert(es > 0);
    vstd::arithmetic::div_mod::lemma_div_denominator(x as int, es, 512);
    assert(es * 512 == cover(l));
    vstd::arithmetic::div_mod::lemma_fundamental_div_mod(x as int / es, 512);
}

/// Within one table's span, indices follow entry numbers.
proof fn lemma_index_in_table(l: TableLevel, a: u64, x: u64)
    requires
        a as int / cover(l) == x as int / cover(l),
    ensures
        desc_index(x, l) - desc_index(a, l) == x as int / entry_size(l) - a as int / entry_size(l),
{
    lemma_desc_index(l, a);
    lemma_desc_index(l, x);
}

/// An address between two others of the same span is in that span too.
proof fn lemma_between_cover(l: TableLevel, a: int, x: int, b: int)
    requires
        0 <= a <= x <= b,
        a / cover(l) == b / cover(l),
    ensures
        x / cover(l) == a / cover(l),
{
    assert(cover(l) > 0);
    vstd::arithmetic::div_mod::lemma_div_is_ordered(a, x, cover(l));
    vstd::arithmetic::div_mod::lemma_div_is_ordered(x, b, cover(l));
}

/// Block and page descriptors: valid, a block at Levels 2 and 3, holding
/// their (aligned, 48-bit) output address.
proof fn lemma_descriptor_bits(b: u64, attr: u64)
    by (bit_vector)
    requires
        b % 0x1000 == 0,
        b < 0x1_0000_0000_0000,
        attr == 0u64 || attr == 4u64,
    ensures
        ((b & 0x0000_ffff_ffff_f000u64) | 0x400u64 | 1u64 | attr) & 1u64 == 1u64,
        ((b & 0x0000_ffff_ffff_f000u64) | 0x400u64 | 1u64 | attr) & 2u64 == 0u64,
        ((b & 0x0000_ffff_ffff_f000u64) | 0x400u64 | 1u64 | attr) & 0x0000_ffff_ffff_f000u64 == b,
        ((b & 0x0000_ffff_ffff_f000u64) | 0x400u64 | 3u64 | attr) & 1u64 == 1u64,
        ((b & 0x0000_ffff_ffff_f000u64) | 0x400u64 | 3u64 | attr) & 0x0000_ffff_ffff_f000u64 == b,
{
}

/// A pointer entry is valid, is not a block, and holds its (aligned) table
/// address.
proof fn lemma_pointer_bits(p: u64)
    by (bit_vector)
    requires
        p % 0x1000 == 0,
        p < 0x1_0000_0000_0000,
    ensures
        ((p & 0x0000_ffff_ffff_f000u64) | 3u64) & 1u64 == 1u64,
        ((p & 0x0000_ffff_ffff_f000u64) | 3u64) & 2u64 == 2u64,
        ((p & 0x0000_ffff_ffff_f000u64) | 3u64) & 0x0000_ffff_ffff_f000u64 == p,
{
}

proof fn lemma_descriptor(l: TableLevel, b: u64, device: bool)
    requires
        b % 0x1000 == 0,
        b < 0x1_0000_0000_0000,
    ensures
        descriptor(l, b, device) & 1u64 == 1u64,
        l != TableLevel::Level4 ==> descriptor(l, b, device) & 2u64 == 0u64,
        descriptor(l, b, device) & ADDR_MASK == b,
{
    assert(0x1u64 << 2u64 == 4u64 && 0x0u64 << 2u64 == 0u64 && 0x1u64 << 10u64 == 0x400u64) by (bit_vector);
    lemma_descriptor_bits(b, attr_flag(device));
}

proof fn lemma_pointer(p: u64)
    requires
        p % 0x1000 == 0,
        p < 0x1_0000_0000_0000,
    ensures
        pointer_entry(p) & 1u64 == 1u64,
        pointer_entry(p) & 2u64 == 2u64,
        pointer_entry(p) & ADDR_MASK == p,
{
    lemma_pointer_bits(p);
}

/// One step of a fill: it runs from `a` to the end of the entry holding `a`
/// or to the end of the range, and the rest of the range starts at the next
/// entry.
proof fn lemma_step(l: TableLevel, a: int, size: int)
    requires
        a >= 0,
        a % 4096 == 0,
        size % 4096 == 0,
        size >= 4096,
        a + size <= u64::MAX + 1,
        in_one_table(l, a, size),
    ensures
        ({
            let es = entry_size(l);
            let off = a % es;
            let fs = if size < es - off { size } else { es - off };
            &&& off % 4096 == 0
            &&& fs % 4096 == 0
            &&& 4096 <= fs <= size
            &&& a / es == (a + fs - 1) / es
            &&& l != TableLevel::Level4 ==> cover(next_level(l)) == es
            &&& l == TableLevel::Level4 ==> off == 0 && fs == 4096
            &&& fs < size ==> (a + fs) % es == 0 && (a + fs) / es == a / es + 1
            &&& in_one_table(l, a + fs, size - fs)
            &&& a / cover(l) == (a + size - 1) / cover(l)
            &&& (a + fs - 1) / cover(l) == a / cover(l)
            &&& fs < size ==> (a + fs) / cover(l) == a / cover(l)
        }),
{
    let es = entry_size(l);
    let off = a % es;
    let fs = if size < es - off { size } else { es - off };
    assert(es % 4096 == 0 && es >= 4096);
    vstd::arithmetic::div_mod::lemma_fundamental_div_mod(a, es);
    vstd::arithmetic::div_mod::lemma_mod_mod(a, 4096, es / 4096);
    assert(4096 * (es / 4096) == es);
    assert(off % 4096 == 0);
    assert(off <= es - 4096);
    let q = a / es;
    assert(a == es * q + off);
    assert(a + fs - 1 == es * q + (off + fs - 1));
    assert(0 <= off + fs - 1 < es);
    vstd::arithmetic::div_mod::lemma_div_multiples_vanish_fancy(q, off + fs - 1, es);
    if fs < size {
        assert(es * (q + 1) == es * q + es) by (nonlinear_arith);
        assert(a + fs == es * (q + 1));
        vstd::arithmetic::div_mod::lemma_div_multiples_vanish(q + 1, es);
        vstd::arithmetic::div_mod::lemma_mod_multiples_basic(q + 1, es);
    }
    assert(cover(l) > 0);
    lemma_between_cover(l, a, a + fs - 1, a + size - 1);
    if fs < size {
        lemma_between_cover(l, a, a + fs, a + size - 1);
    }
}

/// The words `w1` and `w2` agree from index `lo` (inclusive) to `hi`
/// (exclusive).
pub open spec fn agree_on(w1: Seq<u64>, w2: Seq<u64>, lo: int, hi: int) -> bool {
    forall|i: int| lo <= i < hi ==> #[trigger] w1[i] == w2[i]
}

/// The words `w1` and `w2` agree at every index of `s`.
pub open spec fn agree_in(w1: Seq<u64>, w2: Seq<u64>, s: Set<int>) -> bool {
    forall|i: int| #[trigger] s.contains(i) ==> w1[i] == w2[i]
}

/// The length of the first step of a fill of `size` bytes from virtual
/// address `a` through a table of level `l`: to the end of the entry that
/// holds `a`, or to the end of the range.
pub open spec fn step_len(l: TableLevel, a: int, size: int) -> int {
    let es = entry_size(l);
    let off = a % es;
    if size < es - off {
        size
    } else {
        es - off
    }
}

/// The word indices of the existing tables that a fill reads: the table's
/// entries for the range and, for each step through an entry that is
/// already valid, the words of the next-level fill through the table it
/// points to.
pub open spec fn foot(w: Seq<u64>, mb: int, vb: u64, level: TableLevel, table: int, virt: int, base: int, size: int) -> Set<int>
    decreases 4 - level_num(level), size,
{
    if size < 4096 || vb + virt > u64::MAX || table < mb || (table - mb) % 8 != 0 || virt < 0 || base < 0 {
        Set::empty()
    } else {
        let a = vb + virt;
        let fs = step_len(level, a, size);
        let slot = (table - mb) / 8 + desc_index(a as u64, level);
        let sub = if !whole_entry(level, a, base, fs) && w[slot] & 1u64 != 0u64 {
            foot(w, mb, vb, next_level(level), (w[slot] & ADDR_MASK) as int, virt, base, fs)
        } else {
            Set::empty()
        };
        set![slot].union(sub).union(foot(w, mb, vb, level, table, virt + fs, base + fs, size - fs))
    }
}

/// The word indices of the existing tables that a fill writes: the entries
/// it sets to a descriptor or to a new table, and the words the next-level
/// fills through existing tables write.
pub open spec fn writes(w: Seq<u64>, mb: int, vb: u64, level: TableLevel, table: int, virt: int, base: int, size: int) -> Set<int>
    decreases 4 - level_num(level), size,
{
    if size < 4096 || vb + virt > u64::MAX || table < mb || (table - mb) % 8 != 0 || virt < 0 || base < 0 {
        Set::empty()
    } else {
        let a = vb + virt;
        let fs = step_len(level, a, size);
        let slot = (table - mb) / 8 + desc_index(a as u64, level);
        let here = if !whole_entry(level, a, base, fs) && w[slot] & 1u64 != 0u64 {
            writes(w, mb, vb, next_level(level), (w[slot] & ADDR_MASK) as int, virt, base, fs)
        } else {
            set![slot]
        };
        here.union(writes(w, mb, vb, level, table, virt + fs, base + fs, size - fs))
    }
}

/// The existing tables that a fill goes through are well formed: each lies
/// below word index `lim`; an entry that a step goes through and that is
/// valid points to a next-level table (it is not a block); and the words
/// read for different entries are distinct.
pub open spec fn tree_ok(w: Seq<u64>, mb: int, vb: u64, level: TableLevel, table: int, lim: int, virt: int, base: int, size: int) -> bool
    decreases 4 - level_num(level), size,
{
    if size < 4096 {
        true
    } else {
        let a = vb + virt;
        let fs = step_len(level, a, size);
        let slot = (table - mb) / 8 + desc_index(a as u64, level);
        let rest = foot(w, mb, vb, level, table, virt + fs, base + fs, size - fs);
        &&& table >= mb
        &&& (table - mb) % 8 == 0
        &&& (table - mb) / 8 + 512 <= lim
        &&& vb + virt <= u64::MAX
        &&& virt >= 0
        &&& base >= 0
        &&& !rest.contains(slot)
        &&& (!whole_entry(level, a, base, fs) && w[slot] & 1u64 != 0u64 ==> {
            let t = (w[slot] & ADDR_MASK) as int;
            let sub = foot(w, mb, vb, next_level(level), t, virt, base, fs);
            &&& (level == TableLevel::Level1 || w[slot] & 2u64 != 0u64)
            &&& tree_ok(w, mb, vb, next_level(level), t, lim, virt, base, fs)
            &&& !sub.contains(slot)
            &&& sub.disjoint(rest)
        })
        &&& tree_ok(w, mb, vb, level, table, lim, virt + fs, base + fs, size - fs)
    }
}

/// The word indices that the walk of `translate` reads.
pub open spec fn reads(w: Seq<u64>, mb: int, level: TableLevel, table: int, va: u64) -> Set<int>
    decreases 4 - level_num(level),
{
    if table < mb || (table - mb) % 8 != 0 {
        Set::empty()
    } else {
        let slot = (table - mb) / 8 + desc_index(va, level);
        if slot >= w.len() {
            Set::empty()
        } else {
            let d = w[slot];
            if d & 1u64 == 0u64 || level == TableLevel::Level4 || (level != TableLevel::Level1 && d & 2u64 == 0u64) {
                set![slot]
            } else {
                set![slot].union(reads(w, mb, next_level(level), (d & ADDR_MASK) as int, va))
            }
        }
    }
}

/// A walk gives the same result in any memory that holds the words it
/// reads.
pub proof fn lemma_reads(w: Seq<u64>, w2: Seq<u64>, mb: int, level: TableLevel, table: int, va: u64)
    requires
        w2.len() == w.len(),
        agree_in(w2, w, reads(w, mb, level, table, va)),
    ensures
        translate(w2, mb, level, table, va) == translate(w, mb, level, table, va),
    decreases 4 - level_num(level),
{
    if table >= mb && (table - mb) % 8 == 0 {
        let slot = (table - mb) / 8 + desc_index(va, level);
        if slot < w.len() {
            assert(reads(w, mb, level, table, va).contains(slot));
            let d = w[slot];
            if !(d & 1u64 == 0u64 || level == TableLevel::Level4 || (level != TableLevel::Level1 && d & 2u64 == 0u64)) {
                let r = reads(w, mb, next_level(level), (d & ADDR_MASK) as int, va);
                assert forall|i: int| #[trigger] r.contains(i) implies w2[i] == w[i] by {
                    assert(reads(w, mb, level, table, va).contains(i));
                }
                lemma_reads(w, w2, mb, next_level(level), (d & ADDR_MASK) as int, va);
            }
        }
    }
}

/// The index facts of one step of a fill.
proof fn lemma_indices(level: TableLevel, a: int, size: int)
    requires
        a >= 0,
        a % 4096 == 0,
        size % 4096 == 0,
        size >= 4096,
        a + size <= u64::MAX + 1,
        in_one_table(level, a, size),
    ensures
        ({
            let es = entry_size(level);
            let fs = step_len(level, a, size);
            let lo = desc_index(a as u64, level);
            let hi = desc_index((a + size - 1) as u64, level);
            &&& lo <= hi < 512
            &&& forall|va: u64| a <= va < a + fs ==> #[trigger] desc_index(va, level) == lo
            &&& fs < size ==> desc_index((a + fs) as u64, level) == lo + 1
            &&& fs < size ==> desc_index((a + fs + (size - fs) - 1) as u64, level) == hi
            &&& fs % 4096 == 0 && 4096 <= fs <= size
            &&& a / es == (a + fs - 1) / es
            &&& in_one_table(level, a + fs, size - fs)
            &&& level != TableLevel::Level4 ==> in_one_table(next_level(level), a, fs)
        }),
{
    lemma_step(level, a, size);
    let es = entry_size(level);
    let fs = step_len(level, a, size);
    let lo = desc_index(a as u64, level);
    lemma_index_in_table(level, a as u64, (a + size - 1) as u64);
    lemma_index_bound(level, (a + size - 1) as u64);
    vstd::arithmetic::div_mod::lemma_div_is_ordered(a, a + size - 1, es);
    assert forall|va: u64| a <= va < a + fs implies #[trigger] desc_index(va, level) == lo by {
        lemma_between_cover(level, a, va as int, a + size - 1);
        lemma_index_in_table(level, a as u64, va);
        vstd::arithmetic::div_mod::lemma_div_is_ordered(a, va as int, es);
        vstd::arithmetic::div_mod::lemma_div_is_ordered(va as int, a + fs - 1, es);
    }
    if fs < size {
        lemma_index_in_table(level, a as u64, (a + fs) as u64);
    }
}

/// The words of a fill lie below the bound of its tables, and it writes
/// only words it reads.
proof fn lemma_foot_below(w: Seq<u64>, mb: int, vb: u64, level: TableLevel, table: int, lim: int, virt: int, base: int, size: int)
    requires
        tree_ok(w, mb, vb, level, table, lim, virt, base, size),
    ensures
        forall|i: int| #[trigger] foot(w, mb, vb, level, table, virt, base, size).contains(i) ==> 0 <= i < lim,
        forall|i: int| #[trigger] writes(w, mb, vb, level, table, virt, base, size).contains(i) ==> foot(w, mb, vb, level, table, virt, base, size).contains(i),
    decreases 4 - level_num(level), size,
{
    if size >= 4096 {
        let a = vb + virt;
        let fs = step_len(level, a, size);
        assert(entry_size(level) > 0);
        lemma_index_bound(level, a as u64);
        let slot = (table - mb) / 8 + desc_index(a as u64, level);
        let f = foot(w, mb, vb, level, table, virt, base, size);
        let wt = writes(w, mb, vb, level, table, virt, base, size);
        let fr = foot(w, mb, vb, level, table, virt + fs, base + fs, size - fs);
        let wr = writes(w, mb, vb, level, table, virt + fs, base + fs, size - fs);
        lemma_foot_below(w, mb, vb, level, table, lim, virt + fs, base + fs, size - fs);
        if !whole_entry(level, a, base, fs) && w[slot] & 1u64 != 0u64 {
            let t = (w[slot] & ADDR_MASK) as int;
            lemma_foot_below(w, mb, vb, next_level(level), t, lim, virt, base, fs);
            let fsub = foot(w, mb, vb, next_level(level), t, virt, base, fs);
            let wsub = writes(w, mb, vb, next_level(level), t, virt, base, fs);
            assert(f == set![slot].union(fsub).union(fr));
            assert(wt == wsub.union(wr));
            assert forall|i: int| #[trigger] f.contains(i) implies 0 <= i < lim by {
                if fsub.contains(i) {
                } else if fr.contains(i) {
                }
            }
            assert forall|i: int| #[trigger] wt.contains(i) implies f.contains(i) by {
                if wsub.contains(i) {
                    assert(fsub.contains(i));
                } else {
                    assert(fr.contains(i));
                }
            }
        } else {
            assert(f == set![slot].union(Set::<int>::empty()).union(fr));
            assert(wt == set![slot].union(wr));
            assert forall|i: int| #[trigger] f.contains(i) implies 0 <= i < lim by {
                if fr.contains(i) {
                }
            }
            assert forall|i: int| #[trigger] wt.contains(i) implies f.contains(i) by {
                if wr.contains(i) {
                    assert(fr.contains(i));
                }
            }
        }
    }
}

/// What a fill reads and writes, and whether its tables are well formed,
/// depend only on the words it reads.
proof fn lemma_foot_depends(w: Seq<u64>, w2: Seq<u64>, mb: int, vb: u64, level: TableLevel, table: int, lim: int, virt: int, base: int, size: int)
    requires
        agree_in(w2, w, foot(w, mb, vb, level, table, virt, base, size)),
    ensures
        foot(w2, mb, vb, level, table, virt, base, size) == foot(w, mb, vb, level, table, virt, base, size),
        writes(w2, mb, vb, level, table, virt, base, size) == writes(w, mb, vb, level, table, virt, base, size),
        tree_ok(w, mb, vb, level, table, lim, virt, base, size) ==> tree_ok(w2, mb, vb, level, table, lim, virt, base, size),
    decreases 4 - level_num(level), size,
{
    if size >= 4096 && !(vb + virt > u64::MAX || table < mb || (table - mb) % 8 != 0 || virt < 0 || base < 0) {
        let a = vb + virt;
        let fs = step_len(level, a, size);
        assert(entry_size(level) > 0);
        let slot = (table - mb) / 8 + desc_index(a as u64, level);
        assert(foot(w, mb, vb, level, table, virt, base, size).contains(slot));
        assert(w2[slot] == w[slot]);
        let f = foot(w, mb, vb, level, table, virt, base, size);
        let fr = foot(w, mb, vb, level, table, virt + fs, base + fs, size - fs);
        if !whole_entry(level, a, base, fs) && w[slot] & 1u64 != 0u64 {
            let t = (w[slot] & ADDR_MASK) as int;
            let fsub = foot(w, mb, vb, next_level(level), t, virt, base, fs);
            assert(f == set![slot].union(fsub).union(fr));
            assert forall|i: int| #[trigger] fsub.contains(i) implies w2[i] == w[i] by {
                assert(f.contains(i));
            }
            lemma_foot_depends(w, w2, mb, vb, next_level(level), t, lim, virt, base, fs);
        } else {
            assert(f == set![slot].union(Set::<int>::empty()).union(fr));
        }
        assert forall|i: int| #[trigger] fr.contains(i) implies w2[i] == w[i] by {
            assert(f.contains(i));
        }
        lemma_foot_depends(w, w2, mb, vb, level, table, lim, virt + fs, base + fs, size - fs);
        assert(foot(w2, mb, vb, level, table, virt, base, size) =~= foot(w, mb, vb, level, table, virt, base, size));
        assert(writes(w2, mb, vb, level, table, virt, base, size) =~= writes(w, mb, vb, level, table, virt, base, size));
    }
}

/// The tables of a fill through a table whose entries for the range are
/// not valid are well formed, and the fill reads only those entries.
#[verifier::spinoff_prover]
#[verifier::rlimit(100)]
proof fn lemma_fresh(w: Seq<u64>, mb: int, vb: u64, level: TableLevel, table: int, lim: int, virt: int, base: int, size: int)
    requires
        virt >= 0,
        base >= 0,
        size >= 0,
        vb % 4096 == 0,
        virt % 4096 == 0,
        size % 4096 == 0,
        vb + virt + size <= u64::MAX + 1,
        in_one_table(level, vb + virt, size),
        table >= mb,
        (table - mb) % 8 == 0,
        (table - mb) / 8 + 512 <= lim,
        size > 0 ==> forall|i: int|
            (table - mb) / 8 + desc_index((vb + virt) as u64, level) <= i <= (table - mb) / 8 + desc_index(
                (vb + virt + size - 1) as u64,
                level,
            ) ==> (#[trigger] w[i]) & 1u64 == 0u64,
    ensures
        tree_ok(w, mb, vb, level, table, lim, virt, base, size),
        size > 0 ==> forall|i: int|
            #[trigger] foot(w, mb, vb, level, table, virt, base, size).contains(i) ==> (table - mb) / 8 + desc_index(
                (vb + virt) as u64,
                level,
            ) <= i <= (table - mb) / 8 + desc_index((vb + virt + size - 1) as u64, level),
    decreases size,
{
    if size >= 4096 {
        let a = vb + virt;
        let fs = step_len(level, a, size);
        lemma_indices(level, a, size);
        let t0 = (table - mb) / 8;
        let slot = t0 + desc_index(a as u64, level);
        assert(w[slot] & 1u64 == 0u64);
        lemma_fresh(w, mb, vb, level, table, lim, virt + fs, base + fs, size - fs);
        let fr = foot(w, mb, vb, level, table, virt + fs, base + fs, size - fs);
        assert(foot(w, mb, vb, level, table, virt, base, size) == set![slot].union(Set::<int>::empty()).union(fr));
        assert(!fr.contains(slot));
    }
}

/// What a fill through the table of level `level` at `table` needs: the
/// fill succeeds, has the shape of `fill_shape`, and the existing tables it
/// goes through, which lie below word index `lim`, are well formed.
pub open spec fn fill_pre(w: Seq<u64>, mb: int, vb: u64, level: TableLevel, table: int, pe: int, lim: int, virt: int, base: int, size: int, device: bool) -> bool {
    &&& fill_spec(w, mb, vb, level, table, pe, virt, base, size, device) is Some
    &&& fill_shape(w, mb, vb, level, table, pe, lim, virt, base, size)
    &&& tree_ok(w, mb, vb, level, table, lim, virt, base, size)
}

/// The range is page aligned and lies within the table's span, and the
/// existing tables lie below the table area, within the memory.
pub open spec fn fill_shape(w: Seq<u64>, mb: int, vb: u64, level: TableLevel, table: int, pe: int, lim: int, virt: int, base: int, size: int) -> bool {
    &&& vb % 4096 == 0
    &&& virt % 4096 == 0
    &&& base % 4096 == 0
    &&& size % 4096 == 0
    &&& virt >= 0
    &&& base >= 0
    &&& size >= 0
    &&& vb + virt + size <= u64::MAX + 1
    &&& base + size <= 0x1_0000_0000_0000
    &&& in_one_table(level, vb + virt, size)
    &&& mb >= 0
    &&& table >= mb
    &&& (table - mb) % 8 == 0
    &&& (table - mb) / 8 + 512 <= lim
    &&& lim <= (pe - mb) / 8
    &&& lim <= w.len()
    &&& pe >= mb
    &&& (pe - mb) % 8 == 0
    &&& pe % 4096 == 0
}

/// What a fill through the table of level `level` at `table` does: the
/// table area only grows, and stays within the memory when it grows; only
/// the words of `writes` and the new tables are written; and, when the table
/// area stays within 48-bit addresses, every address of the range translates
/// to its physical address in any memory that holds the same words that the
/// fill read and the same new tables.
pub open spec fn fill_post(w: Seq<u64>, mb: int, vb: u64, level: TableLevel, table: int, pe: int, virt: int, base: int, size: int, device: bool) -> bool {
    let res = fill_spec(w, mb, vb, level, table, pe, virt, base, size, device)->0;
    &&& pe <= res.1
    &&& res.1 == pe || (res.1 - mb) / 8 <= w.len()
    &&& res.1 % 4096 == 0
    &&& (res.1 - mb) % 8 == 0
    &&& res.0.len() == w.len()
    &&& forall|i: int|
        0 <= i < w.len() && !writes(w, mb, vb, level, table, virt, base, size).contains(i) && !((pe - mb) / 8 <= i < (
        res.1 - mb) / 8) ==> #[trigger] res.0[i] == w[i]
    &&& res.1 <= 0x1_0000_0000_0000 ==> forall|w3: Seq<u64>, va: u64|
        vb + virt <= va < vb + virt + size && w3.len() == w.len() && agree_in(
            w3,
            res.0,
            foot(w, mb, vb, level, table, virt, base, size),
        ) && agree_on(w3, res.0, (pe - mb) / 8, (res.1 - mb) / 8) ==> #[trigger] translate(w3, mb, level, table, va)
            == Some(base + va - vb - virt)
}

/// A fill through well-formed tables does what `fill_post` says.
proof fn lemma_fill(w: Seq<u64>, mb: int, vb: u64, level: TableLevel, table: int, pe: int, lim: int, virt: int, base: int, size: int, device: bool)
    requires
        fill_pre(w, mb, vb, level, table, pe, lim, virt, base, size, device),
    ensures
        fill_post(w, mb, vb, level, table, pe, virt, base, size, device),
    decreases 4 - level_num(level), size, 1int,
{
    if size < 4096 {
        return;
    }
    let a = vb + virt;
    let fs = step_len(level, a, size);
    let slot = (table - mb) / 8 + desc_index(a as u64, level);
    if whole_entry(level, a, base, fs) {
        lemma_fill_whole(w, mb, vb, level, table, pe, lim, virt, base, size, device);
    } else if w[slot] & 1u64 != 0u64 {
        lemma_fill_ptr(w, mb, vb, level, table, pe, lim, virt, base, size, device);
    } else {
        lemma_fill_fresh(w, mb, vb, level, table, pe, lim, virt, base, size, device);
    }
}

/// A step that maps a whole entry with a descriptor.
#[verifier::spinoff_prover]
#[verifier::rlimit(100)]
proof fn lemma_fill_whole(w: Seq<u64>, mb: int, vb: u64, level: TableLevel, table: int, pe: int, lim: int, virt: int, base: int, size: int, device: bool)
    requires
        fill_pre(w, mb, vb, level, table, pe, lim, virt, base, size, device),
        size >= 4096,
        whole_entry(level, vb + virt, base, step_len(level, vb + virt, size)),
    ensures
        fill_post(w, mb, vb, level, table, pe, virt, base, size, device),
    decreases 4 - level_num(level), size, 0int,
{
    let a = vb + virt;
    let t0 = (table - mb) / 8;
    lemma_indices(level, a, size);
    let es = entry_size(level);
    let fs = step_len(level, a, size);
    let lo = desc_index(a as u64, level);
    let slot = t0 + lo;
    let d = descriptor(level, base as u64, device);
    let w1 = w.update(slot, d);
    let f = foot(w, mb, vb, level, table, virt, base, size);
    let fr = foot(w, mb, vb, level, table, virt + fs, base + fs, size - fs);
    let wr = writes(w, mb, vb, level, table, virt + fs, base + fs, size - fs);
    assert(fill_spec(w, mb, vb, level, table, pe, virt, base, size, device) == fill_spec(
        w1, mb, vb, level, table, pe, virt + fs, base + fs, size - fs, device));
    assert(!fr.contains(slot));
    lemma_foot_below(w, mb, vb, level, table, lim, virt + fs, base + fs, size - fs);
    assert(agree_in(w1, w, fr));
    lemma_foot_depends(w, w1, mb, vb, level, table, lim, virt + fs, base + fs, size - fs);
    assert(f == set![slot].union(fr));
    assert(writes(w, mb, vb, level, table, virt, base, size) == set![slot].union(wr));
    lemma_fill(w1, mb, vb, level, table, pe, lim, virt + fs, base + fs, size - fs, device);
    let res = fill_spec(w1, mb, vb, level, table, pe, virt + fs, base + fs, size - fs, device)->0;
    assert forall|i: int|
        0 <= i < w.len() && !writes(w, mb, vb, level, table, virt, base, size).contains(i) && !((pe - mb) / 8 <= i < (res.1 - mb) / 8)
        implies #[trigger] res.0[i] == w[i] by {
        assert(!wr.contains(i));
        assert(res.0[i] == w1[i]);
    }
    assert(res.0[slot] == d) by {
        assert(!wr.contains(slot));
        assert(slot < lim);
    }
    if res.1 <= 0x1_0000_0000_0000 {
        lemma_descriptor(level, base as u64, device);
        assert forall|w3: Seq<u64>, va: u64|
            vb + virt <= va < vb + virt + size && w3.len() == w.len() && agree_in(w3, res.0, f) && agree_on(
                w3,
                res.0,
                (pe - mb) / 8,
                (res.1 - mb) / 8,
            ) implies #[trigger] translate(w3, mb, level, table, va) == Some(base + va - vb - virt) by {
            if va < a + fs {
                assert(desc_index(va, level) == lo);
                assert(f.contains(slot));
                assert(w3[slot] == d);
                assert((va as int) % es == va - a) by {
                    lemma_step(level, a, size);
                    vstd::arithmetic::div_mod::lemma_div_is_ordered(a, va as int, es);
                    vstd::arithmetic::div_mod::lemma_div_is_ordered(va as int, a + fs - 1, es);
                    vstd::arithmetic::div_mod::lemma_fundamental_div_mod(va as int, es);
                    vstd::arithmetic::div_mod::lemma_fundamental_div_mod(a, es);
                }
            } else {
                assert forall|i: int| #[trigger] fr.contains(i) implies w3[i] == res.0[i] by {
                    assert(f.contains(i));
                }
                assert(translate(w3, mb, level, table, va) == Some((base + fs) + va - vb - (virt + fs)));
            }
        }
    }
}

/// A step through the next-level table that the entry already points to.
#[verifier::spinoff_prover]
#[verifier::rlimit(100)]
proof fn lemma_fill_ptr(w: Seq<u64>, mb: int, vb: u64, level: TableLevel, table: int, pe: int, lim: int, virt: int, base: int, size: int, device: bool)
    requires
        fill_pre(w, mb, vb, level, table, pe, lim, virt, base, size, device),
        size >= 4096,
        !whole_entry(level, vb + virt, base, step_len(level, vb + virt, size)),
        w[(table - mb) / 8 + desc_index((vb + virt) as u64, level)] & 1u64 != 0u64,
    ensures
        fill_post(w, mb, vb, level, table, pe, virt, base, size, device),
    decreases 4 - level_num(level), size, 0int,
{
    let a = vb + virt;
    let t0 = (table - mb) / 8;
    lemma_indices(level, a, size);
    let fs = step_len(level, a, size);
    let lo = desc_index(a as u64, level);
    let slot = t0 + lo;
    let nl = next_level(level);
    let desc = w[slot];
    let t = (desc & ADDR_MASK) as int;
    let f = foot(w, mb, vb, level, table, virt, base, size);
    let fsub = foot(w, mb, vb, nl, t, virt, base, fs);
    let wsub = writes(w, mb, vb, nl, t, virt, base, fs);
    let fr = foot(w, mb, vb, level, table, virt + fs, base + fs, size - fs);
    let wr = writes(w, mb, vb, level, table, virt + fs, base + fs, size - fs);
    lemma_ptr_parts(w, mb, vb, level, table, pe, lim, virt, base, size, device);
    lemma_fill(w, mb, vb, nl, t, pe, lim, virt, base, fs, device);
    let inner = fill_spec(w, mb, vb, nl, t, pe, virt, base, fs, device)->0;
    let w1 = inner.0.update(slot, desc);
    lemma_ptr_unfold(w, mb, vb, level, table, pe, virt, base, size, device);
    assert(agree_in(w1, w, fr)) by {
        assert forall|i: int| #[trigger] fr.contains(i) implies w1[i] == w[i] by {
            assert(!fsub.contains(i));
            assert(!wsub.contains(i));
            assert(i < lim);
            assert(i != slot);
        }
    }
    lemma_foot_depends(w, w1, mb, vb, level, table, lim, virt + fs, base + fs, size - fs);
    assert(fill_pre(w1, mb, vb, level, table, inner.1, lim, virt + fs, base + fs, size - fs, device));
    lemma_fill(w1, mb, vb, level, table, inner.1, lim, virt + fs, base + fs, size - fs, device);
    let res = fill_spec(w1, mb, vb, level, table, inner.1, virt + fs, base + fs, size - fs, device)->0;
    assert forall|i: int|
        0 <= i < w.len() && !writes(w, mb, vb, level, table, virt, base, size).contains(i) && !((pe - mb) / 8 <= i < (res.1 - mb) / 8)
        implies #[trigger] res.0[i] == w[i] by {
        assert(!wr.contains(i));
        assert(!wsub.contains(i));
        assert(res.0[i] == w1[i]);
        if i != slot {
            assert(w1[i] == inner.0[i]);
        }
    }
    assert(res.0[slot] == desc) by {
        assert(!wr.contains(slot));
        assert(slot < lim);
    }
    if res.1 <= 0x1_0000_0000_0000 {
        assert forall|w3: Seq<u64>, va: u64|
            vb + virt <= va < vb + virt + size && w3.len() == w.len() && agree_in(w3, res.0, f) && agree_on(
                w3,
                res.0,
                (pe - mb) / 8,
                (res.1 - mb) / 8,
            ) implies #[trigger] translate(w3, mb, level, table, va) == Some(base + va - vb - virt) by {
            if va < a + fs {
                lemma_ptr_first(w, mb, vb, level, table, pe, lim, virt, base, size, device, w3, va);
            } else {
                assert forall|i: int| #[trigger] fr.contains(i) implies w3[i] == res.0[i] by {
                    assert(f.contains(i));
                }
                assert(translate(w3, mb, level, table, va) == Some((base + fs) + va - vb - (virt + fs)));
            }
        }
    }
}

/// The parts of a step through an existing next-level table.
#[verifier::spinoff_prover]
#[verifier::rlimit(100)]
proof fn lemma_ptr_parts(w: Seq<u64>, mb: int, vb: u64, level: TableLevel, table: int, pe: int, lim: int, virt: int, base: int, size: int, device: bool)
    requires
        fill_pre(w, mb, vb, level, table, pe, lim, virt, base, size, device),
        size >= 4096,
        !whole_entry(level, vb + virt, base, step_len(level, vb + virt, size)),
        w[(table - mb) / 8 + desc_index((vb + virt) as u64, level)] & 1u64 != 0u64,
    ensures
        ({
            let a = vb + virt;
            let fs = step_len(level, a, size);
            let slot = (table - mb) / 8 + desc_index(a as u64, level);
            let nl = next_level(level);
            let t = (w[slot] & ADDR_MASK) as int;
            let fsub = foot(w, mb, vb, nl, t, virt, base, fs);
            let wsub = writes(w, mb, vb, nl, t, virt, base, fs);
            let fr = foot(w, mb, vb, level, table, virt + fs, base + fs, size - fs);
            let wr = writes(w, mb, vb, level, table, virt + fs, base + fs, size - fs);
            &&& level != TableLevel::Level4
            &&& level == TableLevel::Level1 || w[slot] & 2u64 != 0u64
            &&& 0 <= slot < lim
            &&& foot(w, mb, vb, level, table, virt, base, size) == set![slot].union(fsub).union(fr)
            &&& writes(w, mb, vb, level, table, virt, base, size) == wsub.union(wr)
            &&& !fsub.contains(slot)
            &&& !fr.contains(slot)
            &&& fsub.disjoint(fr)
            &&& tree_ok(w, mb, vb, level, table, lim, virt + fs, base + fs, size - fs)
            &&& forall|i: int| #[trigger] fsub.contains(i) ==> 0 <= i < lim
            &&& forall|i: int| #[trigger] fr.contains(i) ==> 0 <= i < lim
            &&& forall|i: int| #[trigger] wsub.contains(i) ==> fsub.contains(i)
            &&& forall|i: int| #[trigger] wr.contains(i) ==> fr.contains(i)
            &&& fill_pre(w, mb, vb, nl, t, pe, lim, virt, base, fs, device)
        }),
{
    let a = vb + virt;
    lemma_indices(level, a, size);
    let fs = step_len(level, a, size);
    let slot = (table - mb) / 8 + desc_index(a as u64, level);
    let nl = next_level(level);
    let t = (w[slot] & ADDR_MASK) as int;
    assert(level != TableLevel::Level4);
    assert(tree_ok(w, mb, vb, nl, t, lim, virt, base, fs));
    lemma_foot_below(w, mb, vb, nl, t, lim, virt, base, fs);
    lemma_foot_below(w, mb, vb, level, table, lim, virt + fs, base + fs, size - fs);
    assert(fill_spec(w, mb, vb, nl, t, pe, virt, base, fs, device) is Some);
}

/// A step through an existing next-level table, unfolded.
#[verifier::spinoff_prover]
#[verifier::rlimit(100)]
proof fn lemma_ptr_unfold(w: Seq<u64>, mb: int, vb: u64, level: TableLevel, table: int, pe: int, virt: int, base: int, size: int, device: bool)
    requires
        fill_spec(w, mb, vb, level, table, pe, virt, base, size, device) is Some,
        size >= 4096,
        table >= mb,
        (table - mb) % 8 == 0,
        virt >= 0,
        base >= 0,
        vb + virt <= u64::MAX,
        !whole_entry(level, vb + virt, base, step_len(level, vb + virt, size)),
        w[(table - mb) / 8 + desc_index((vb + virt) as u64, level)] & 1u64 != 0u64,
    ensures
        ({
            let a = vb + virt;
            let fs = step_len(level, a, size);
            let slot = (table - mb) / 8 + desc_index(a as u64, level);
            let nl = next_level(level);
            let desc = w[slot];
            let t = (desc & ADDR_MASK) as int;
            let inner = fill_spec(w, mb, vb, nl, t, pe, virt, base, fs, device)->0;
            let w1 = inner.0.update(slot, desc);
            fill_spec(w, mb, vb, level, table, pe, virt, base, size, device) == fill_spec(
                w1, mb, vb, level, table, inner.1, virt + fs, base + fs, size - fs, device)
        }),
{
}

/// The first step's addresses of a step through an existing next-level
/// table translate through that table.
#[verifier::spinoff_prover]
#[verifier::rlimit(100)]
proof fn lemma_ptr_first(w: Seq<u64>, mb: int, vb: u64, level: TableLevel, table: int, pe: int, lim: int, virt: int, base: int, size: int, device: bool, w3: Seq<u64>, va: u64)
    requires
        fill_pre(w, mb, vb, level, table, pe, lim, virt, base, size, device),
        size >= 4096,
        ({
            let a = vb + virt;
            let fs = step_len(level, a, size);
            let slot = (table - mb) / 8 + desc_index(a as u64, level);
            let nl = next_level(level);
            let desc = w[slot];
            let t = (desc & ADDR_MASK) as int;
            let inner = fill_spec(w, mb, vb, nl, t, pe, virt, base, fs, device)->0;
            let w1 = inner.0.update(slot, desc);
            let res = fill_spec(w, mb, vb, level, table, pe, virt, base, size, device)->0;
            &&& !whole_entry(level, a, base, fs)
            &&& desc & 1u64 != 0u64
            &&& fill_post(w, mb, vb, nl, t, pe, virt, base, fs, device)
            &&& res == fill_spec(w1, mb, vb, level, table, inner.1, virt + fs, base + fs, size - fs, device)->0
            &&& fill_post(w1, mb, vb, level, table, inner.1, virt + fs, base + fs, size - fs, device)
            &&& writes(w1, mb, vb, level, table, virt + fs, base + fs, size - fs) == writes(w, mb, vb, level, table, virt + fs, base + fs, size - fs)
            &&& res.1 <= 0x1_0000_0000_0000
            &&& a <= va < a + fs
            &&& w3.len() == w.len()
            &&& agree_in(w3, res.0, foot(w, mb, vb, level, table, virt, base, size))
            &&& agree_on(w3, res.0, (pe - mb) / 8, (res.1 - mb) / 8)
        }),
    ensures
        translate(w3, mb, level, table, va) == Some(base + va - vb - virt),
{
    let a = vb + virt;
    let t0 = (table - mb) / 8;
    lemma_indices(level, a, size);
    let fs = step_len(level, a, size);
    let lo = desc_index(a as u64, level);
    let slot = t0 + lo;
    let nl = next_level(level);
    let desc = w[slot];
    let t = (desc & ADDR_MASK) as int;
    let inner = fill_spec(w, mb, vb, nl, t, pe, virt, base, fs, device)->0;
    let w1 = inner.0.update(slot, desc);
    let res = fill_spec(w, mb, vb, level, table, pe, virt, base, size, device)->0;
    let f = foot(w, mb, vb, level, table, virt, base, size);
    let fsub = foot(w, mb, vb, nl, t, virt, base, fs);
    let fr = foot(w, mb, vb, level, table, virt + fs, base + fs, size - fs);
    let wr = writes(w, mb, vb, level, table, virt + fs, base + fs, size - fs);
    assert(f == set![slot].union(fsub).union(fr));
    assert(level != TableLevel::Level4);
    lemma_foot_below(w, mb, vb, nl, t, lim, virt, base, fs);
    lemma_foot_below(w, mb, vb, level, table, lim, virt + fs, base + fs, size - fs);
    assert(res.0[slot] == w1[slot]) by {
        assert(!wr.contains(slot));
        assert(slot < lim);
    }
    assert(desc_index(va, level) == lo);
    assert(f.contains(slot));
    assert(w3[slot] == desc);
    assert(translate(w3, mb, level, table, va) == translate(w3, mb, nl, t, va));
    assert(agree_in(w3, inner.0, fsub)) by {
        assert forall|i: int| #[trigger] fsub.contains(i) implies w3[i] == inner.0[i] by {
            assert(f.contains(i));
            assert(!fr.contains(i));
            assert(!wr.contains(i));
            assert(i < lim);
            assert(i != slot);
            assert(res.0[i] == w1[i]);
        }
    }
    assert(agree_on(w3, inner.0, (pe - mb) / 8, (inner.1 - mb) / 8)) by {
        assert forall|i: int| (pe - mb) / 8 <= i < (inner.1 - mb) / 8 implies #[trigger] w3[i] == inner.0[i] by {
            assert(w3[i] == res.0[i]);
            assert(!wr.contains(i));
            assert(res.0[i] == w1[i]);
        }
    }
}

/// The parts of a step through a new, cleared next-level table.
#[verifier::spinoff_prover]
#[verifier::rlimit(100)]
proof fn lemma_fresh_parts(w: Seq<u64>, mb: int, vb: u64, level: TableLevel, table: int, pe: int, lim: int, virt: int, base: int, size: int, device: bool)
    requires
        fill_pre(w, mb, vb, level, table, pe, lim, virt, base, size, device),
        size >= 4096,
        !whole_entry(level, vb + virt, base, step_len(level, vb + virt, size)),
        w[(table - mb) / 8 + desc_index((vb + virt) as u64, level)] & 1u64 == 0u64,
    ensures
        ({
            let a = vb + virt;
            let fs = step_len(level, a, size);
            let slot = (table - mb) / 8 + desc_index(a as u64, level);
            let nl = next_level(level);
            let tn = (pe - mb) / 8;
            let pe1 = pe + TABLE_SIZE;
            let w0 = zero_table(w, tn);
            let fr = foot(w, mb, vb, level, table, virt + fs, base + fs, size - fs);
            let wr = writes(w, mb, vb, level, table, virt + fs, base + fs, size - fs);
            let fsub = foot(w0, mb, vb, nl, pe, virt, base, fs);
            let wsub = writes(w0, mb, vb, nl, pe, virt, base, fs);
            let inner = fill_spec(w0, mb, vb, nl, pe, pe1, virt, base, fs, device)->0;
            let w1 = inner.0.update(slot, pointer_entry(pe as u64));
            &&& level != TableLevel::Level4
            &&& 0 <= slot < lim
            &&& lim <= tn
            &&& tn + 512 <= w.len()
            &&& pe + TABLE_SIZE <= u64::MAX
            &&& foot(w, mb, vb, level, table, virt, base, size) == set![slot].union(fr)
            &&& writes(w, mb, vb, level, table, virt, base, size) == set![slot].union(wr)
            &&& !fr.contains(slot)
            &&& tree_ok(w, mb, vb, level, table, lim, virt + fs, base + fs, size - fs)
            &&& forall|i: int| #[trigger] fr.contains(i) ==> 0 <= i < lim
            &&& forall|i: int| #[trigger] wr.contains(i) ==> fr.contains(i)
            &&& forall|i: int| #[trigger] fsub.contains(i) ==> tn <= i < tn + 512
            &&& forall|i: int| #[trigger] wsub.contains(i) ==> fsub.contains(i)
            &&& fill_pre(w0, mb, vb, nl, pe, pe1, tn + 512, virt, base, fs, device)
            &&& fill_spec(w, mb, vb, level, table, pe, virt, base, size, device) == fill_spec(
                w1, mb, vb, level, table, inner.1, virt + fs, base + fs, size - fs, device)
        }),
{
    let a = vb + virt;
    let t0 = (table - mb) / 8;
    lemma_indices(level, a, size);
    let fs = step_len(level, a, size);
    let nl = next_level(level);
    let tn = (pe - mb) / 8;
    let w0 = zero_table(w, tn);
    assert(level != TableLevel::Level4);
    lemma_foot_below(w, mb, vb, level, table, lim, virt + fs, base + fs, size - fs);
    lemma_index_bound(nl, (vb + virt + fs - 1) as u64);
    lemma_index_bound(nl, (vb + virt) as u64);
    assert forall|i: int|
        tn + desc_index((vb + virt) as u64, nl) <= i <= tn + desc_index((vb + virt + fs - 1) as u64, nl)
        implies (#[trigger] w0[i]) & 1u64 == 0u64 by {
        assert(w0[i] == 0u64);
        assert(0u64 & 1u64 == 0u64) by (bit_vector);
    }
    lemma_fresh(w0, mb, vb, nl, pe, tn + 512, virt, base, fs);
    lemma_foot_below(w0, mb, vb, nl, pe, tn + 512, virt, base, fs);
}

/// The first step's addresses of a step through a new table translate
/// through that table.
#[verifier::spinoff_prover]
#[verifier::rlimit(100)]
proof fn lemma_fresh_first(w: Seq<u64>, mb: int, vb: u64, level: TableLevel, table: int, pe: int, lim: int, virt: int, base: int, size: int, device: bool, w3: Seq<u64>, va: u64)
    requires
        fill_shape(w, mb, vb, level, table, pe, lim, virt, base, size),
        size >= 4096,
        ({
            let a = vb + virt;
            let fs = step_len(level, a, size);
            let slot = (table - mb) / 8 + desc_index(a as u64, level);
            let nl = next_level(level);
            let tn = (pe - mb) / 8;
            let w0 = zero_table(w, tn);
            let inner = fill_spec(w0, mb, vb, nl, pe, pe + TABLE_SIZE, virt, base, fs, device)->0;
            let w1 = inner.0.update(slot, pointer_entry(pe as u64));
            let res = fill_spec(w, mb, vb, level, table, pe, virt, base, size, device)->0;
            let wr = writes(w, mb, vb, level, table, virt + fs, base + fs, size - fs);
            &&& !whole_entry(level, a, base, fs)
            &&& w[slot] & 1u64 == 0u64
            &&& level != TableLevel::Level4
            &&& tn + 512 <= w.len()
            &&& 0 <= slot < lim
            &&& fill_post(w0, mb, vb, nl, pe, pe + TABLE_SIZE, virt, base, fs, device)
            &&& forall|i: int| #[trigger] foot(w0, mb, vb, nl, pe, virt, base, fs).contains(i) ==> tn <= i < tn + 512
            &&& res == fill_spec(w1, mb, vb, level, table, inner.1, virt + fs, base + fs, size - fs, device)->0
            &&& fill_post(w1, mb, vb, level, table, inner.1, virt + fs, base + fs, size - fs, device)
            &&& writes(w1, mb, vb, level, table, virt + fs, base + fs, size - fs) == wr
            &&& forall|i: int| #[trigger] wr.contains(i) ==> 0 <= i < lim
            &&& res.0[slot] == pointer_entry(pe as u64)
            &&& res.1 <= 0x1_0000_0000_0000
            &&& a <= va < a + fs
            &&& w3.len() == w.len()
            &&& agree_in(w3, res.0, foot(w, mb, vb, level, table, virt, base, size))
            &&& agree_on(w3, res.0, (pe - mb) / 8, (res.1 - mb) / 8)
        }),
    ensures
        translate(w3, mb, level, table, va) == Some(base + va - vb - virt),
{
    let a = vb + virt;
    let t0 = (table - mb) / 8;
    lemma_indices(level, a, size);
    let fs = step_len(level, a, size);
    let lo = desc_index(a as u64, level);
    let slot = t0 + lo;
    let nl = next_level(level);
    let tn = (pe - mb) / 8;
    let pe1 = pe + TABLE_SIZE;
    let w0 = zero_table(w, tn);
    let inner = fill_spec(w0, mb, vb, nl, pe, pe1, virt, base, fs, device)->0;
    let p = pointer_entry(pe as u64);
    let w1 = inner.0.update(slot, p);
    let res = fill_spec(w, mb, vb, level, table, pe, virt, base, size, device)->0;
    let f = foot(w, mb, vb, level, table, virt, base, size);
    let fsub = foot(w0, mb, vb, nl, pe, virt, base, fs);
    let wr = writes(w, mb, vb, level, table, virt + fs, base + fs, size - fs);
    assert(lim <= tn);
    assert(pe < 0x1_0000_0000_0000);
    assert((pe as u64) as int == pe);
    lemma_pointer(pe as u64);
    assert(desc_index(va, level) == lo);
    assert(slot >= 0);
    assert(f.contains(slot));
    assert(w3[slot] == p);
    assert(translate(w3, mb, level, table, va) == translate(w3, mb, nl, pe, va));
    assert(pe1 <= inner.1);
    assert((inner.1 - mb) / 8 >= tn + 512);
    assert(agree_in(w3, inner.0, fsub)) by {
        assert forall|i: int| #[trigger] fsub.contains(i) implies w3[i] == inner.0[i] by {
            assert(tn <= i < tn + 512);
            assert(w3[i] == res.0[i]);
            assert(!wr.contains(i));
            assert(res.0[i] == w1[i]);
        }
    }
    assert(agree_on(w3, inner.0, (pe1 - mb) / 8, (inner.1 - mb) / 8)) by {
        assert forall|i: int| (pe1 - mb) / 8 <= i < (inner.1 - mb) / 8 implies #[trigger] w3[i] == inner.0[i] by {
            assert(w3[i] == res.0[i]);
            assert(!wr.contains(i));
            assert(res.0[i] == w1[i]);
        }
    }
}

/// The rest of a step through a new table meets `fill_pre`.
#[verifier::spinoff_prover]
#[verifier::rlimit(100)]
proof fn lemma_fresh_rest_pre(w: Seq<u64>, mb: int, vb: u64, level: TableLevel, table: int, pe: int, lim: int, virt: int, base: int, size: int, device: bool)
    requires
        fill_pre(w, mb, vb, level, table, pe, lim, virt, base, size, device),
        size >= 4096,
        !whole_entry(level, vb + virt, base, step_len(level, vb + virt, size)),
        w[(table - mb) / 8 + desc_index((vb + virt) as u64, level)] & 1u64 == 0u64,
        ({
            let a = vb + virt;
            let fs = step_len(level, a, size);
            let slot = (table - mb) / 8 + desc_index(a as u64, level);
            let nl = next_level(level);
            let tn = (pe - mb) / 8;
            let pe1 = pe + TABLE_SIZE;
            let w0 = zero_table(w, tn);
            let inner = fill_spec(w0, mb, vb, nl, pe, pe1, virt, base, fs, device)->0;
            let w1 = inner.0.update(slot, pointer_entry(pe as u64));
            fill_post(w0, mb, vb, nl, pe, pe1, virt, base, fs, device)
        }),
    ensures
        ({
            let a = vb + virt;
            let fs = step_len(level, a, size);
            let slot = (table - mb) / 8 + desc_index(a as u64, level);
            let nl = next_level(level);
            let tn = (pe - mb) / 8;
            let pe1 = pe + TABLE_SIZE;
            let w0 = zero_table(w, tn);
            let inner = fill_spec(w0, mb, vb, nl, pe, pe1, virt, base, fs, device)->0;
            let w1 = inner.0.update(slot, pointer_entry(pe as u64));
            &&& fill_pre(w1, mb, vb, level, table, inner.1, lim, virt + fs, base + fs, size - fs, device)
            &&& writes(w1, mb, vb, level, table, virt + fs, base + fs, size - fs) == writes(w, mb, vb, level, table, virt + fs, base + fs, size - fs)
            &&& foot(w1, mb, vb, level, table, virt + fs, base + fs, size - fs) == foot(w, mb, vb, level, table, virt + fs, base + fs, size - fs)
        }),
{
    let a = vb + virt;
    let t0 = (table - mb) / 8;
    lemma_indices(level, a, size);
    let fs = step_len(level, a, size);
    let lo = desc_index(a as u64, level);
    let slot = t0 + lo;
    let nl = next_level(level);
    let tn = (pe - mb) / 8;
    let pe1 = pe + TABLE_SIZE;
    let w0 = zero_table(w, tn);
    let f = foot(w, mb, vb, level, table, virt, base, size);
    let fr = foot(w, mb, vb, level, table, virt + fs, base + fs, size - fs);
    let wr = writes(w, mb, vb, level, table, virt + fs, base + fs, size - fs);
    let fsub = foot(w0, mb, vb, nl, pe, virt, base, fs);
    let wsub = writes(w0, mb, vb, nl, pe, virt, base, fs);
    lemma_fresh_parts(w, mb, vb, level, table, pe, lim, virt, base, size, device);
    let inner = fill_spec(w0, mb, vb, nl, pe, pe1, virt, base, fs, device)->0;
    let p = pointer_entry(pe as u64);
    let w1 = inner.0.update(slot, p);
    assert(agree_in(w1, w, fr)) by {
        assert forall|i: int| #[trigger] fr.contains(i) implies w1[i] == w[i] by {
            assert(i < lim);
            assert(i != slot);
            assert(!wsub.contains(i));
            assert(inner.0[i] == w0[i]);
        }
    }
    lemma_foot_depends(w, w1, mb, vb, level, table, lim, virt + fs, base + fs, size - fs);
}

/// The facts of a step through a new table, from those of its two parts.
#[verifier::spinoff_prover]
#[verifier::rlimit(100)]
proof fn lemma_fresh_post(w: Seq<u64>, mb: int, vb: u64, level: TableLevel, table: int, pe: int, lim: int, virt: int, base: int, size: int, device: bool)
    requires
        fill_pre(w, mb, vb, level, table, pe, lim, virt, base, size, device),
        size >= 4096,
        !whole_entry(level, vb + virt, base, step_len(level, vb + virt, size)),
        w[(table - mb) / 8 + desc_index((vb + virt) as u64, level)] & 1u64 == 0u64,
        ({
            let a = vb + virt;
            let fs = step_len(level, a, size);
            let slot = (table - mb) / 8 + desc_index(a as u64, level);
            let nl = next_level(level);
            let tn = (pe - mb) / 8;
            let pe1 = pe + TABLE_SIZE;
            let w0 = zero_table(w, tn);
            let inner = fill_spec(w0, mb, vb, nl, pe, pe1, virt, base, fs, device)->0;
            let w1 = inner.0.update(slot, pointer_entry(pe as u64));
            &&& fill_post(w0, mb, vb, nl, pe, pe1, virt, base, fs, device)
            &&& fill_post(w1, mb, vb, level, table, inner.1, virt + fs, base + fs, size - fs, device)
            &&& writes(w1, mb, vb, level, table, virt + fs, base + fs, size - fs) == writes(w, mb, vb, level, table, virt + fs, base + fs, size - fs)
            &&& foot(w1, mb, vb, level, table, virt + fs, base + fs, size - fs) == foot(w, mb, vb, level, table, virt + fs, base + fs, size - fs)
        }),
    ensures
        fill_post(w, mb, vb, level, table, pe, virt, base, size, device),
{
    let a = vb + virt;
    let t0 = (table - mb) / 8;
    lemma_indices(level, a, size);
    let fs = step_len(level, a, size);
    let lo = desc_index(a as u64, level);
    let slot = t0 + lo;
    let nl = next_level(level);
    let tn = (pe - mb) / 8;
    let pe1 = pe + TABLE_SIZE;
    let w0 = zero_table(w, tn);
    let f = foot(w, mb, vb, level, table, virt, base, size);
    let fr = foot(w, mb, vb, level, table, virt + fs, base + fs, size - fs);
    let wr = writes(w, mb, vb, level, table, virt + fs, base + fs, size - fs);
    let fsub = foot(w0, mb, vb, nl, pe, virt, base, fs);
    let wsub = writes(w0, mb, vb, nl, pe, virt, base, fs);
    lemma_fresh_parts(w, mb, vb, level, table, pe, lim, virt, base, size, device);
    let inner = fill_spec(w0, mb, vb, nl, pe, pe1, virt, base, fs, device)->0;
    let p = pointer_entry(pe as u64);
    let w1 = inner.0.update(slot, p);
    let res = fill_spec(w1, mb, vb, level, table, inner.1, virt + fs, base + fs, size - fs, device)->0;
    assert forall|i: int|
        0 <= i < w.len() && !writes(w, mb, vb, level, table, virt, base, size).contains(i) && !((pe - mb) / 8 <= i < (res.1 - mb) / 8)
        implies #[trigger] res.0[i] == w[i] by {
        assert(!wr.contains(i));
        assert(res.0[i] == w1[i]);
        assert(i != slot);
        assert(!wsub.contains(i));
        assert(inner.0[i] == w0[i]);
    }
    assert(res.0[slot] == p) by {
        assert(!wr.contains(slot));
        assert(slot < lim);
    }
    if res.1 <= 0x1_0000_0000_0000 {
        assert(pe < 0x1_0000_0000_0000);
        assert((pe as u64) as int == pe);
        lemma_pointer(pe as u64);
        assert forall|w3: Seq<u64>, va: u64|
            vb + virt <= va < vb + virt + size && w3.len() == w.len() && agree_in(w3, res.0, f) && agree_on(
                w3,
                res.0,
                (pe - mb) / 8,
                (res.1 - mb) / 8,
            ) implies #[trigger] translate(w3, mb, level, table, va) == Some(base + va - vb - virt) by {
            if va < a + fs {
                lemma_fresh_first(w, mb, vb, level, table, pe, lim, virt, base, size, device, w3, va);
            } else {
                assert forall|i: int| #[trigger] fr.contains(i) implies w3[i] == res.0[i] by {
                    assert(f.contains(i));
                }
                assert(translate(w3, mb, level, table, va) == Some((base + fs) + va - vb - (virt + fs)));
            }
        }
    }
}

/// A step through a new, cleared next-level table, since the entry is not
/// valid.
#[verifier::spinoff_prover]
#[verifier::rlimit(100)]
proof fn lemma_fill_fresh(w: Seq<u64>, mb: int, vb: u64, level: TableLevel, table: int, pe: int, lim: int, virt: int, base: int, size: int, device: bool)
    requires
        fill_pre(w, mb, vb, level, table, pe, lim, virt, base, size, device),
        size >= 4096,
        !whole_entry(level, vb + virt, base, step_len(level, vb + virt, size)),
        w[(table - mb) / 8 + desc_index((vb + virt) as u64, level)] & 1u64 == 0u64,
    ensures
        fill_post(w, mb, vb, level, table, pe, virt, base, size, device),
    decreases 4 - level_num(level), size, 0int,
{
    let a = vb + virt;
    let fs = step_len(level, a, size);
    let slot = (table - mb) / 8 + desc_index(a as u64, level);
    let nl = next_level(level);
    let tn = (pe - mb) / 8;
    let pe1 = pe + TABLE_SIZE;
    let w0 = zero_table(w, tn);
    lemma_fresh_parts(w, mb, vb, level, table, pe, lim, virt, base, size, device);
    lemma_fill(w0, mb, vb, nl, pe, pe1, tn + 512, virt, base, fs, device);
    let inner = fill_spec(w0, mb, vb, nl, pe, pe1, virt, base, fs, device)->0;
    let w1 = inner.0.update(slot, pointer_entry(pe as u64));
    lemma_fresh_rest_pre(w, mb, vb, level, table, pe, lim, virt, base, size, device);
    lemma_fill(w1, mb, vb, level, table, inner.1, lim, virt + fs, base + fs, size - fs, device);
    lemma_fresh_post(w, mb, vb, level, table, pe, lim, virt, base, size, device);
}

/// The index of an address in a table is below 512.
proof fn lemma_index_bound(l: TableLevel, va: u64)
    ensures
        desc_index(va, l) < 512,
{
    lemma_desc_index(l, va);
}


/// Mapping a page-aligned range of `size` bytes from physical address
/// `base` at virtual address `virtual_base + virt`, through the Level 1 table
/// at `ps`, translates every address of the range to its physical address:
/// `virtual_base + virt + o` translates to `base + o`. The tables that
/// earlier maps built may be in place: every entry on the range's path is
/// either not valid or a pointer to a next-level table (not a block), and
/// the existing tables are well formed (`tree_ok`) and lie below the table
/// area, which starts at `pe`. The range lies within one Level 1 table's span
/// (256 TiB) and the tables and addresses within 48 bits.
pub proof fn law_map_translates(w: Seq<u64>, mb: int, vb: u64, ps: u64, pe: int, virt: int, base: int, size: int, device: bool)
    requires
        map_spec(w, mb, vb, ps, pe, virt, base, size, device) is Some,
        fill_shape(w, mb, vb, TableLevel::Level1, ps as int, pe, (pe - mb) / 8, virt, base, size),
        tree_ok(w, mb, vb, TableLevel::Level1, ps as int, (pe - mb) / 8, virt, base, size),
        (map_spec(w, mb, vb, ps, pe, virt, base, size, device)->0).1 <= 0x1_0000_0000_0000,
    ensures
        ({
            let res = map_spec(w, mb, vb, ps, pe, virt, base, size, device)->0;
            &&& pe <= res.1
            &&& forall|va: u64|
                vb + virt <= va < vb + virt + size ==> #[trigger] translate(res.0, mb, TableLevel::Level1, ps as int, va)
                    == Some(base + va - vb - virt)
        }),
{
    lemma_fill(w, mb, vb, TableLevel::Level1, ps as int, pe, (pe - mb) / 8, virt, base, size, device);
    let res = map_spec(w, mb, vb, ps, pe, virt, base, size, device)->0;
    assert forall|va: u64| vb + virt <= va < vb + virt + size implies #[trigger] translate(
        res.0,
        mb,
        TableLevel::Level1,
        ps as int,
        va,
    ) == Some(base + va - vb - virt) by {
        assert(agree_on(res.0, res.0, (pe - mb) / 8, (res.1 - mb) / 8));
        assert(agree_in(res.0, res.0, foot(w, mb, vb, TableLevel::Level1, ps as int, virt, base, size)));
    }
}

/// A map changes only the entries it writes (`writes`: the entries on the
/// range's path that become descriptors or pointers to new tables) and the
/// new tables at the end of the table area. So the translation of every
/// address whose walk reads none of those entries and no word of the table
/// area from `pe` on stays what it was: what earlier maps made of the
/// addresses outside the range survives.
pub proof fn law_map_frame(w: Seq<u64>, mb: int, vb: u64, ps: u64, pe: int, virt: int, base: int, size: int, device: bool)
    requires
        map_spec(w, mb, vb, ps, pe, virt, base, size, device) is Some,
        fill_shape(w, mb, vb, TableLevel::Level1, ps as int, pe, (pe - mb) / 8, virt, base, size),
        tree_ok(w, mb, vb, TableLevel::Level1, ps as int, (pe - mb) / 8, virt, base, size),
    ensures
        ({
            let res = map_spec(w, mb, vb, ps, pe, virt, base, size, device)->0;
            let wr = writes(w, mb, vb, TableLevel::Level1, ps as int, virt, base, size);
            &&& res.0.len() == w.len()
            &&& forall|i: int|
                0 <= i < (pe - mb) / 8 && !wr.contains(i) ==> #[trigger] res.0[i] == w[i]
            &&& forall|va: u64|
                (forall|i: int| #[trigger] reads(w, mb, TableLevel::Level1, ps as int, va).contains(i) ==> 0 <= i < (pe - mb)
                    / 8 && !wr.contains(i)) ==> #[trigger] translate(res.0, mb, TableLevel::Level1, ps as int, va)
                    == translate(w, mb, TableLevel::Level1, ps as int, va)
        }),
{
    lemma_fill(w, mb, vb, TableLevel::Level1, ps as int, pe, (pe - mb) / 8, virt, base, size, device);
    let res = map_spec(w, mb, vb, ps, pe, virt, base, size, device)->0;
    let wr = writes(w, mb, vb, TableLevel::Level1, ps as int, virt, base, size);
    assert forall|va: u64|
        (forall|i: int| #[trigger] reads(w, mb, TableLevel::Level1, ps as int, va).contains(i) ==> 0 <= i < (pe - mb) / 8
            && !wr.contains(i)) implies #[trigger] translate(res.0, mb, TableLevel::Level1, ps as int, va) == translate(
        w,
        mb,
        TableLevel::Level1,
        ps as int,
        va,
    ) by {
        lemma_reads(w, res.0, mb, TableLevel::Level1, ps as int, va);
    }
}

/// A direct map of a page-aligned range translates every address of the
/// range: `virtual_base + a` translates to `a` for each physical address `a`
/// of the range, under the conditions of `law_map_translates`.
pub proof fn law_direct_map_translates(w: Seq<u64>, mb: int, vb: u64, ps: u64, pe: int, base: int, size: int, device: bool)
    requires
        direct_map_spec(w, mb, vb, ps, pe, base, size, device) is Some,
        fill_shape(w, mb, vb, TableLevel::Level1, ps as int, pe, (pe - mb) / 8, base, base, size),
        tree_ok(w, mb, vb, TableLevel::Level1, ps as int, (pe - mb) / 8, base, base, size),
        (direct_map_spec(w, mb, vb, ps, pe, base, size, device)->0).1 <= 0x1_0000_0000_0000,
    ensures
        ({
            let res = direct_map_spec(w, mb, vb, ps, pe, base, size, device)->0;
            &&& pe <= res.1
            &&& forall|va: u64|
                vb + base <= va < vb + base + size ==> #[trigger] translate(res.0, mb, TableLevel::Level1, ps as int, va)
                    == Some(va - vb)
        }),
{
    law_map_translates(w, mb, vb, ps, pe, base, base, size, device);
}

} // verus!
