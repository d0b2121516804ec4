//! ATAG lists provided by the bootloader.
//!
//! An ATAG list is a sequence of tags of 32-bit words. Each tag starts with a
//! header: its size in words (header included) and its identifier. The list
//! starts with a CORE tag and ends with a NONE tag. A MEM tag describes a
//! memory region: its size in bytes, then its base address.

use vstd::prelude::*;
use crate::early::{ROSKernelInit, ROSMemoryRegion};

verus! {

pub const ATAG_NONE: u32 = 0;
pub const ATAG_CORE: u32 = 0x54410001;
pub const ATAG_MEM: u32 = 0x54410002;
pub const ATAG_VIDEOTEXT: u32 = 0x54410003;
pub const ATAG_RAMDISK: u32 = 0x54410004;
pub const ATAG_INITRD2: u32 = 0x54410005;
pub const ATAG_SERIAL: u32 = 0x54410006;
pub const ATAG_REVISION: u32 = 0x54410007;
pub const ATAG_VIDEOLFB: u32 = 0x54410008;
pub const ATAG_CMDLINE: u32 = 0x54410009;

/// The regions after recording a memory region in the first empty one (of
/// size 0); unchanged when none is empty.
pub open spec fn add_region(regions: Seq<ROSMemoryRegion>, base: u32, size: u32) -> Seq<ROSMemoryRegion> {
    if exists|i: int| 0 <= i < regions.len() && regions[i].size == 0 {
        let i = choose|i: int|
            0 <= i < regions.len() && regions[i].size == 0 && forall|j: int| 0 <= j < i ==> regions[j].size != 0;
        regions.update(i, ROSMemoryRegion { base: base as usize, size: size as usize })
    } else {
        regions
    }
}

/// The regions after reading the tags from word `p` on: `None` when the list
/// runs past the words or holds a tag shorter than its header.
pub open spec fn scan_tags(words: Seq<u32>, p: int, regions: Seq<ROSMemoryRegion>) -> Option<Seq<ROSMemoryRegion>>
    decreases words.len() - p,
{
    if p < 0 || p + 2 > words.len() {
        None
    } else if words[p + 1] == ATAG_NONE {
        Some(regions)
    } else if words[p] < 2 {
        None
    } else if words[p + 1] == ATAG_MEM && p + 4 > words.len() {
        None
    } else if p + words[p] > words.len() {
        None
    } else {
        let next = if words[p + 1] == ATAG_MEM {
            add_region(regions, words[p + 3], words[p + 2])
        } else {
            regions
        };
        scan_tags(words, p + words[p], next)
    }
}

/// The regions after reading an ATAG list, `None` when the words are not an
/// ATAG list (no CORE tag first, or a malformed list).
pub open spec fn atags_spec(words: Seq<u32>, regions: Seq<ROSMemoryRegion>) -> Option<Seq<ROSMemoryRegion>> {
    if words.len() < 2 || words[1] != ATAG_CORE {
        None
    } else {
        scan_tags(words, 0, regions)
    }
}

/// Adds a memory region to the kernel initialization parameters, in the first
/// empty region.
pub fn read_mem_atag(init: &mut ROSKernelInit, base: u32, size: u32)
    ensures
        final(init).peripheral_base == old(init).peripheral_base,
        final(init).memory_regions@ == add_region(old(init).memory_regions@, base, size),
{
    let ghost r0 = init.memory_regions@;
    let mut i: usize = 0;
    while i < init.memory_regions.len()
        invariant
            i <= init.memory_regions@.len(),
            init.memory_regions@ == r0,
            init.peripheral_base == old(init).peripheral_base,
            r0 == old(init).memory_regions@,
            forall|j: int| 0 <= j < i ==> r0[j].size != 0,
        decreases init.memory_regions@.len() - i,
    {
        if init.memory_regions[i].size == 0 {
            proof {
                let k = choose|k: int|
                    0 <= k < r0.len() && r0[k].size == 0 && forall|j: int| 0 <= j < k ==> r0[j].size != 0;
                assert(k == i as int) by {
                    if k < i {
                        assert(r0[k].size != 0);
                    } else if k > i {
                        assert(r0[i as int].size == 0);
                    }
                }
            }
            init.memory_regions.set(i, ROSMemoryRegion { base: base as usize, size: size as usize });
            return;
        }
        i += 1;
    }
}

/// Reads the ATAG list in `words` into the kernel initialization parameters:
/// each MEM tag fills the first empty memory region. Returns false when the
/// words are not an ATAG list.
pub fn read_atags(init: &mut ROSKernelInit, words: &[u32]) -> (r: bool)
    ensures
        final(init).peripheral_base == old(init).peripheral_base,
        r == atags_spec(words@, old(init).memory_regions@) is Some,
        atags_spec(words@, old(init).memory_regions@) matches Some(regions) ==> final(init).memory_regions@ == regions,
{
    // The list must start with CORE.
    if words.len() < 2 || words[1] != ATAG_CORE {
        return false;
    }
    let ghost target = scan_tags(words@, 0, init.memory_regions@);
    let mut p: usize = 0;
    loop
        invariant
            p <= words@.len(),
            init.peripheral_base == old(init).peripheral_base,
            target == atags_spec(words@, old(init).memory_regions@),
            scan_tags(words@, p as int, init.memory_regions@) == target,
        decreases words@.len() - p,
    {
        if words.len() - p < 2 {
            return false;
        }
        let size = words[p];
        let tag = words[p + 1];
        if tag == ATAG_NONE {
            return true;
        }
        if size < 2 {
            return false;
        }
        if tag == ATAG_MEM && words.len() - p < 4 {
            return false;
        }
        // The size field is the number of words in the tag.
        if size as usize > words.len() - p {
            return false;
        }
        if tag == ATAG_MEM {
            read_mem_atag(init, words[p + 3], words[p + 2]);
        }
        p += size as usize;
    }
}


/// Scanning a list placed after other words, from a position in the list,
/// reads the same as scanning the list alone.
proof fn lemma_scan_shift(pre: Seq<u32>, rest: Seq<u32>, q: int, regions: Seq<ROSMemoryRegion>)
    requires
        q >= 0,
    ensures
        scan_tags(pre + rest, pre.len() + q, regions) == scan_tags(rest, q, regions),
    decreases rest.len() - q,
{
    let w = pre + rest;
    let p = pre.len() + q;
    if q + 2 <= rest.len() {
        assert(w[p] == rest[q]);
        assert(w[p + 1] == rest[q + 1]);
        if rest[q + 1] != ATAG_NONE && rest[q] >= 2 && !(rest[q + 1] == ATAG_MEM && q + 4 > rest.len()) && q + rest[q]
            <= rest.len() {
            if rest[q + 1] == ATAG_MEM {
                assert(w[p + 2] == rest[q + 2]);
                assert(w[p + 3] == rest[q + 3]);
            }
            let next = if rest[q + 1] == ATAG_MEM {
                add_region(regions, rest[q + 3], rest[q + 2])
            } else {
                regions
            };
            lemma_scan_shift(pre, rest, q + rest[q], next);
        }
    }
}

/// Every tag is skipped by the size in its header, whatever its identifier:
/// a list reads the same whatever the size (at least 2) of its CORE tag, and
/// whatever the data words that size covers.
pub proof fn law_core_tag_size(data: Seq<u32>, rest: Seq<u32>, regions: Seq<ROSMemoryRegion>)
    requires
        data.len() + 2 <= u32::MAX,
    ensures
        atags_spec(seq![(data.len() + 2) as u32, ATAG_CORE] + data + rest, regions) == atags_spec(
            seq![2u32, ATAG_CORE] + rest,
            regions,
        ),
{
    let core = seq![(data.len() + 2) as u32, ATAG_CORE] + data;
    let w1 = core + rest;
    let short = seq![2u32, ATAG_CORE];
    let w2 = short + rest;
    assert(seq![(data.len() + 2) as u32, ATAG_CORE] + data + rest == w1);
    assert(w1[0] == (data.len() + 2) as u32);
    assert(w1[1] == ATAG_CORE);
    assert(w2[0] == 2u32);
    assert(w2[1] == ATAG_CORE);
    lemma_scan_shift(core, rest, 0, regions);
    lemma_scan_shift(short, rest, 0, regions);
    assert(scan_tags(w1, 0, regions) == scan_tags(w1, core.len() as int, regions));
    assert(scan_tags(w2, 0, regions) == scan_tags(w2, short.len() as int, regions));
}

/// A MEM tag records its memory region (base in its fourth word, size in
/// its third) in the first empty region, and scanning goes on after it:
/// a list with a MEM tag after its CORE tag reads as the list without it
/// would from the regions with that region recorded.
pub proof fn law_mem_tag(base: u32, size: u32, rest: Seq<u32>, regions: Seq<ROSMemoryRegion>)
    ensures
        atags_spec(seq![2u32, ATAG_CORE, 4u32, ATAG_MEM, size, base] + rest, regions) == atags_spec(
            seq![2u32, ATAG_CORE] + rest,
            add_region(regions, base, size),
        ),
{
    let head = seq![2u32, ATAG_CORE, 4u32, ATAG_MEM, size, base];
    let w1 = head + rest;
    let short = seq![2u32, ATAG_CORE];
    let w2 = short + rest;
    assert(w1[0] == 2u32 && w1[1] == ATAG_CORE && w1[2] == 4u32 && w1[3] == ATAG_MEM && w1[4] == size && w1[5] == base);
    assert(w2[0] == 2u32 && w2[1] == ATAG_CORE);
    lemma_scan_shift(head, rest, 0, add_region(regions, base, size));
    lemma_scan_shift(short, rest, 0, add_region(regions, base, size));
    assert(scan_tags(w1, 2, regions) == scan_tags(w1, 6, add_region(regions, base, size)));
    assert(scan_tags(w1, 0, regions) == scan_tags(w1, 2, regions));
    assert(scan_tags(w2, 0, add_region(regions, base, size)) == scan_tags(w2, 2, add_region(regions, base, size)));
}


/// A tag other than NONE and MEM is skipped by the size in its header,
/// whatever its identifier and data: a list reads as it would without it.
pub proof fn law_other_tag_skipped(tag: u32, data: Seq<u32>, rest: Seq<u32>, regions: Seq<ROSMemoryRegion>)
    requires
        tag != ATAG_NONE,
        tag != ATAG_MEM,
        data.len() + 2 <= u32::MAX,
    ensures
        atags_spec(seq![2u32, ATAG_CORE, (data.len() + 2) as u32, tag] + data + rest, regions) == atags_spec(
            seq![2u32, ATAG_CORE] + rest,
            regions,
        ),
{
    let head = seq![2u32, ATAG_CORE, (data.len() + 2) as u32, tag] + data;
    let w1 = head + rest;
    let short = seq![2u32, ATAG_CORE];
    let w2 = short + rest;
    assert(seq![2u32, ATAG_CORE, (data.len() + 2) as u32, tag] + data + rest == w1);
    assert(w1[0] == 2u32 && w1[1] == ATAG_CORE && w1[2] == (data.len() + 2) as u32 && w1[3] == tag);
    assert(w2[0] == 2u32 && w2[1] == ATAG_CORE);
    lemma_scan_shift(head, rest, 0, regions);
    lemma_scan_shift(short, rest, 0, regions);
    assert(scan_tags(w1, 0, regions) == scan_tags(w1, 2, regions));
    assert(scan_tags(w1, 2, regions) == scan_tags(w1, head.len() as int, regions));
    assert(scan_tags(w2, 0, regions) == scan_tags(w2, short.len() as int, regions));
}

/// A NONE tag ends the list: what follows it is not read, and the regions
/// found before it are the result.
pub proof fn law_none_ends(size: u32, rest: Seq<u32>, regions: Seq<ROSMemoryRegion>)
    ensures
        atags_spec(seq![2u32, ATAG_CORE, size, ATAG_NONE] + rest, regions) == Some(regions),
{
    let w = seq![2u32, ATAG_CORE, size, ATAG_NONE] + rest;
    assert(w[0] == 2u32 && w[1] == ATAG_CORE && w[2] == size && w[3] == ATAG_NONE);
    assert(scan_tags(w, 0, regions) == scan_tags(w, 2, regions));
}

} // verus!
