//! Buddy page allocator.
//!
//! Free blocks of `2^level` pages are kept on one circular, doubly-linked
//! list per level. The list nodes live at the beginning of each free block
//! and carry a checksum. One flag bit per pair of buddy blocks records whether
//! exactly one of the two buddies is on its level's list.
//!
//! The allocator is not thread-safe and does not protect against double-free.
//! The memory it serves is modelled at page granularity: `nodes[i]` is the
//! node word area at the start of page number `i`. Pages are numbered from
//! the served area's base aligned down to the largest block size, so a block
//! aligned on its size relative to page 0 is aligned on its size in physical
//! memory; the pages below the area are never free.

use vstd::prelude::*;
use vstd::arithmetic::power2::{pow2, lemma2_to64, lemma_pow2_unfold, lemma_pow2_strictly_increases, lemma_pow2_pos};
use crate::support::bits::{align_down, lemma_page_size_pow2, xor_checksum, xor_fold, lowest_bit, least_significant_bit, lemma_lowest_bit_divides};
use crate::support::range::Range;
use crate::arch::common64::bits::{ceil_log2, floor_log2, msb, lemma_msb};

verus! {

/// Support blocks that are up to Page Size * 2^10 bytes. With a 4 KiB page
/// size, the largest block size is 4 MiB.
pub const BLOCK_LEVELS: usize = 11;

/// Page shift of the served memory (4 KiB pages).
pub const PAGE_SHIFT: usize = 12;

/// Page size of the served memory.
pub const PAGE_SIZE: usize = 4096;

/// Size of the largest block, in bytes: `PAGE_SIZE * 2^(BLOCK_LEVELS - 1)`.
pub const MAX_BLOCK_SIZE: usize = 0x40_0000;

/// Bit length of a metadata word.
pub const WORD_BITS: usize = 64;

/// Word byte-size shift.
pub const WORD_SHIFT: usize = 3;

/// Masks a block pair number to find its bit within a word.
pub const WORD_MASK: usize = 63;

/// Shift count for the metadata index of a block pair's word.
pub const INDEX_SHIFT: usize = 6;

// ---------------------------------------------------------------------------
// Level metadata layout
// ---------------------------------------------------------------------------

/// Number of whole blocks of level `l` in an area of `npages` pages.
pub open spec fn level_blocks(npages: nat, l: nat) -> nat
    decreases l,
{
    if l == 0 {
        npages
    } else {
        level_blocks(npages, (l - 1) as nat) / 2
    }
}

/// Number of flag bits for level `l`: one bit per pair of blocks.
pub open spec fn level_bits(npages: nat, l: nat) -> nat {
    (level_blocks(npages, l) + 1) / 2
}

/// Number of 64-bit flag words for level `l`.
pub open spec fn level_words(npages: nat, l: nat) -> nat {
    (level_bits(npages, l) + 63) / 64
}

/// Index of the first flag word of level `l`.
pub open spec fn level_offset(npages: nat, l: nat) -> nat
    decreases l,
{
    if l == 0 {
        0
    } else {
        level_offset(npages, (l - 1) as nat) + level_words(npages, (l - 1) as nat)
    }
}

/// Total number of flag words for an area of `npages` pages.
pub open spec fn metadata_words(npages: nat) -> nat {
    level_offset(npages, BLOCK_LEVELS as nat)
}

/// Left shifts of words by the shifts used here are multiplications.
pub proof fn lemma_shl(x: usize, shift: usize)
    requires
        shift < 32,
        x * pow2(shift as nat) <= usize::MAX,
    ensures
        x << shift == x * pow2(shift as nat),
        pow2(0) == 1 && pow2(1) == 2 && pow2(3) == 8 && pow2(6) == 64 && pow2(12) == 4096,
{
    lemma2_to64();
    if shift < usize::BITS {
        vstd::bits::lemma_usize_shl_is_mul(x, shift);
    } else {
        assert(false);
    }
}

/// Shift and mask facts on words used throughout the allocator.
pub proof fn lemma_word_ops(x: usize)
    by (bit_vector)
    ensures
        x >> 1usize == x / 2,
        x >> 3usize == x / 8,
        x >> 6usize == x / 64,
        x >> 12usize == x / 4096,
        x & 63usize == x % 64,
        x & 1usize == x % 2,
{
}

proof fn lemma_level_bounds(npages: nat, l: nat)
    ensures
        level_blocks(npages, l) <= npages,
        level_words(npages, l) <= npages + 1,
        level_offset(npages, l) <= l * (npages + 1),
    decreases l,
{
    if l > 0 {
        lemma_level_bounds(npages, (l - 1) as nat);
        assert((l - 1) * (npages + 1) + (npages + 1) == l * (npages + 1)) by (nonlinear_arith);
    }
}

proof fn lemma_level_offset_monotonic(npages: nat, l1: nat, l2: nat)
    requires
        l1 <= l2,
    ensures
        level_offset(npages, l1) <= level_offset(npages, l2),
        l1 < l2 ==> level_offset(npages, l1) + level_words(npages, l1) <= level_offset(npages, l2),
    decreases l2,
{
    if l1 < l2 {
        lemma_level_offset_monotonic(npages, l1, (l2 - 1) as nat);
    }
}

/// Block level metadata.
pub struct BlockLevel {
    /// Address of the first block on the level's list, 0 when empty.
    pub head: usize,
    /// Index of the level's first flag word.
    pub offset: usize,
}

/// Linked-list node placed at the beginning of each unallocated block.
#[derive(Copy, Clone)]
pub struct BlockNode {
    pub next: usize,
    pub prev: usize,
    pub checksum: usize,
}

/// The checksum of a node with the given links.
pub open spec fn node_checksum(next: usize, prev: usize) -> usize {
    xor_fold(seq![next, prev])
}

impl BlockNode {
    /// Construct a new block node with a checksum.
    pub fn new(next: usize, prev: usize) -> (r: Self)
        ensures
            r.next == next,
            r.prev == prev,
            r.checksum == node_checksum(next, prev),
    {
        BlockNode { next, prev, checksum: Self::calc_checksum(next, prev) }
    }

    /// Calculate a checksum for the given next and previous pointers.
    pub fn calc_checksum(next: usize, prev: usize) -> (r: usize)
        ensures
            r == node_checksum(next, prev),
    {
        let values = [next, prev];
        proof {
            assert(values@ =~= seq![next, prev]);
        }
        xor_checksum(&values)
    }

    /// The node's checksum matches its links.
    pub open spec fn valid(self) -> bool {
        self.checksum == node_checksum(self.next, self.prev)
    }
}

/// Compute the level metadata for an area of `size` bytes.
///
/// Returns the level table (empty lists, flag word offsets) and the size of
/// the flag metadata in bytes.
pub fn make_levels(size: usize) -> (r: (Vec<BlockLevel>, usize))
    ensures
        r.0@.len() == BLOCK_LEVELS,
        forall|l: int|
            #![trigger r.0@[l]]
            0 <= l < BLOCK_LEVELS ==> r.0@[l].head == 0 && r.0@[l].offset == level_offset(
                (size / PAGE_SIZE) as nat,
                l as nat,
            ),
        r.1 == 8 * metadata_words((size / PAGE_SIZE) as nat),
{
    let ghost npages = (size / PAGE_SIZE) as nat;
    let mut levels: Vec<BlockLevel> = Vec::new();
    proof {
        lemma_word_ops(size);
    }
    let mut blocks = size >> PAGE_SHIFT;
    let mut offset: usize = 0;
    let mut level: usize = 0;

    proof {
        lemma_level_bounds(npages, BLOCK_LEVELS as nat);
    }
    while level < BLOCK_LEVELS
        invariant
            level <= BLOCK_LEVELS,
            npages == size / PAGE_SIZE,
            npages <= usize::MAX / 4096,
            levels@.len() == level,
            blocks == level_blocks(npages, level as nat),
            offset == level_offset(npages, level as nat),
            forall|l: int|
                #![trigger levels@[l]]
                0 <= l < level ==> levels@[l].head == 0 && levels@[l].offset == level_offset(
                    npages,
                    l as nat,
                ),
        decreases BLOCK_LEVELS - level,
    {
        proof {
            lemma_level_bounds(npages, level as nat);
            lemma_level_bounds(npages, (level + 1) as nat);
            assert((level + 1) * (npages + 1) <= 11 * (npages + 1)) by (nonlinear_arith)
                requires level + 1 <= 11;
        }
        levels.push(BlockLevel { head: 0, offset });

        // One bit per pair of blocks.
        proof {
            lemma_word_ops((blocks + 1) as usize);
        }
        let bits = (blocks + 1) >> 1;

        // Round up the number of bits to whole words.
        proof {
            lemma_word_ops((bits + WORD_BITS - 1) as usize);
        }
        offset += (bits + WORD_BITS - 1) >> INDEX_SHIFT;

        proof {
            lemma_word_ops(blocks);
        }
        blocks >>= 1;
        level += 1;
    }

    proof {
        lemma_level_bounds(npages, BLOCK_LEVELS as nat);
        assert(npages * 4096 <= usize::MAX);
        assert(offset <= 11 * (npages + 1));
        assert(offset * 8 <= usize::MAX);
        lemma2_to64();
        lemma_shl(offset, WORD_SHIFT);
    }
    (levels, offset << WORD_SHIFT)
}

// ---------------------------------------------------------------------------
// Arithmetic on blocks
// ---------------------------------------------------------------------------

/// Number of pages in a block of level `l`.
pub open spec fn block_pages(l: int) -> int {
    pow2(l as nat) as int
}

/// A block of level `l` starting at page offset `p` is aligned on its size
/// and lies within an area of `npages` pages.
pub open spec fn block_ok(npages: int, l: int, p: int) -> bool {
    &&& 0 <= p
    &&& p % block_pages(l) == 0
    &&& p + block_pages(l) <= npages
}

/// A block aligned on its size relative to an origin that is aligned on the
/// largest block size starts at an address that is a multiple of the
/// block's size in bytes.
pub proof fn lemma_block_addr_aligned(o: int, p: int, m: int)
    requires
        0 <= m < BLOCK_LEVELS,
        0 <= o,
        0 <= p,
        o % MAX_BLOCK_SIZE as int == 0,
        p % block_pages(m) == 0,
    ensures
        (o + p * PAGE_SIZE) % (block_pages(m) * PAGE_SIZE) == 0,
{
    lemma_block_pages(m);
    lemma2_to64();
    vstd::arithmetic::power2::lemma_pow2_adds(m as nat, (10 - m) as nat);
    let bp = block_pages(m);
    let r = pow2((10 - m) as nat) as int;
    assert(bp * r == 1024);
    vstd::arithmetic::div_mod::lemma_fundamental_div_mod(o, MAX_BLOCK_SIZE as int);
    vstd::arithmetic::div_mod::lemma_fundamental_div_mod(p, bp);
    let a = o / MAX_BLOCK_SIZE as int;
    let b = p / bp;
    assert(o + p * PAGE_SIZE == (a * r + b) * (bp * PAGE_SIZE)) by (nonlinear_arith)
        requires o == MAX_BLOCK_SIZE as int * a, p == bp * b, bp * r == 1024, MAX_BLOCK_SIZE == 0x40_0000, PAGE_SIZE == 4096;
    vstd::arithmetic::div_mod::lemma_mod_multiples_basic(a * r + b, bp * PAGE_SIZE);
}

/// The page ranges of two blocks do not overlap.
pub open spec fn blocks_disjoint(l1: int, p1: int, l2: int, p2: int) -> bool {
    p1 + block_pages(l1) <= p2 || p2 + block_pages(l2) <= p1
}

/// The blocks on all free lists are pairwise disjoint.
pub open spec fn lists_disjoint(lists: Seq<Seq<int>>) -> bool {
    forall|l1: int, i1: int, l2: int, i2: int|
        #![trigger lists[l1][i1], lists[l2][i2]]
        0 <= l1 < BLOCK_LEVELS && 0 <= l2 < BLOCK_LEVELS && 0 <= i1 < lists[l1].len() && 0 <= i2
            < lists[l2].len() && (l1 != l2 || i1 != i2) ==> blocks_disjoint(
            l1,
            lists[l1][i1],
            l2,
            lists[l2][i2],
        )
}

/// A block of level `l` at `p` does not overlap any block on the lists.
pub open spec fn disjoint_from_lists(lists: Seq<Seq<int>>, l: int, p: int) -> bool {
    forall|l2: int, i2: int|
        #![trigger lists[l2][i2]]
        0 <= l2 < BLOCK_LEVELS && 0 <= i2 < lists[l2].len() ==> blocks_disjoint(
            l,
            p,
            l2,
            lists[l2][i2],
        )
}

/// Index of the flag bit of the buddy pair holding the block at `p`.
pub open spec fn pair_of(l: int, p: int) -> int {
    (p / block_pages(l)) / 2
}

/// Successor of position `i` in the circular list `s`.
pub open spec fn next_of(s: Seq<int>, i: int) -> int {
    if i + 1 < s.len() {
        s[i + 1]
    } else {
        s[0]
    }
}

/// Predecessor of position `i` in the circular list `s`.
pub open spec fn prev_of(s: Seq<int>, i: int) -> int {
    if i > 0 {
        s[i - 1]
    } else {
        s[s.len() - 1]
    }
}

pub proof fn lemma_block_pages(l: int)
    requires
        0 <= l < BLOCK_LEVELS,
    ensures
        1 <= block_pages(l) <= 1024,
        l + 1 < BLOCK_LEVELS ==> block_pages(l + 1) == 2 * block_pages(l),
        l > 0 ==> block_pages(l) == 2 * block_pages(l - 1),
        block_pages(0) == 1,
        block_pages(10) == 1024,
{
    lemma2_to64();
    if l + 1 < BLOCK_LEVELS {
        lemma_pow2_unfold((l + 1) as nat);
    }
    if l > 0 {
        lemma_pow2_unfold(l as nat);
    }
    lemma_pow2_pos(l as nat);
    if l < 10 {
        lemma_pow2_strictly_increases(l as nat, 10);
    }
}

/// Splitting a page offset aligned on a block size into its block pair.
pub proof fn lemma_pair(bp: int, p: int)
    requires
        bp > 0,
        p >= 0,
        p % bp == 0,
    ensures
        ({
            let b = p / bp;
            let q = b / 2;
            &&& p == b * bp
            &&& q >= 0
            &&& b % 2 == 0 ==> p == 2 * q * bp && p + bp == (2 * q + 1) * bp
            &&& b % 2 == 1 ==> p == (2 * q + 1) * bp && p - bp == 2 * q * bp
        }),
{
    let b = p / bp;
    let q = b / 2;
    vstd::arithmetic::div_mod::lemma_fundamental_div_mod(p, bp);
    assert(b >= 0) by (nonlinear_arith)
        requires p >= 0, bp > 0, b == p / bp;
    if b % 2 == 0 {
        assert(b == 2 * q);
        assert(p == 2 * q * bp) by (nonlinear_arith) requires p == b * bp, b == 2 * q;
        assert(p + bp == (2 * q + 1) * bp) by (nonlinear_arith) requires p == 2 * q * bp;
    } else {
        assert(b == 2 * q + 1);
        assert(p == (2 * q + 1) * bp) by (nonlinear_arith) requires p == b * bp, b == 2 * q + 1;
        assert(p - bp == 2 * q * bp) by (nonlinear_arith) requires p == (2 * q + 1) * bp;
    }
}

/// The two blocks of pair `q` belong to pair `q`.
pub proof fn lemma_pair_members(bp: int, q: int)
    requires
        bp > 0,
        q >= 0,
    ensures
        pair_index(bp, 2 * q * bp) == q,
        pair_index(bp, (2 * q + 1) * bp) == q,
        (2 * q * bp) % bp == 0,
        ((2 * q + 1) * bp) % bp == 0,
        2 * q * bp >= 0,
{
    vstd::arithmetic::div_mod::lemma_div_multiples_vanish(2 * q, bp);
    vstd::arithmetic::div_mod::lemma_div_multiples_vanish(2 * q + 1, bp);
    vstd::arithmetic::div_mod::lemma_mod_multiples_basic(2 * q, bp);
    vstd::arithmetic::div_mod::lemma_mod_multiples_basic(2 * q + 1, bp);
    assert(2 * q * bp >= 0) by (nonlinear_arith) requires q >= 0, bp > 0;
    assert(2 * q * bp == bp * (2 * q) && 2 * q * bp == (2 * q) * bp) by (nonlinear_arith);
    assert((2 * q + 1) * bp == bp * (2 * q + 1)) by (nonlinear_arith);
    assert((2 * q * bp) / bp == 2 * q);
    assert(((2 * q + 1) * bp) / bp == 2 * q + 1);
}

/// Index of the buddy pair of a page offset for blocks of `bp` pages.
pub open spec fn pair_index(bp: int, p: int) -> int {
    (p / bp) / 2
}

proof fn lemma_level_blocks_div(npages: nat, l: nat)
    requires
        l < BLOCK_LEVELS,
    ensures
        level_blocks(npages, l) == npages as int / block_pages(l as int),
    decreases l,
{
    lemma_block_pages(l as int);
    if l > 0 {
        lemma_level_blocks_div(npages, (l - 1) as nat);
        lemma_block_pages((l - 1) as int);
        vstd::arithmetic::div_mod::lemma_div_denominator(
            npages as int,
            block_pages(l - 1),
            2,
        );
        assert(block_pages(l - 1) * 2 == block_pages(l as int));
    }
}

/// The flag bit of a block on the lists lies inside the level's flag words.
proof fn lemma_pair_bound(npages: nat, l: int, p: int)
    requires
        0 <= l < BLOCK_LEVELS,
        block_ok(npages as int, l, p),
    ensures
        0 <= pair_of(l, p) < level_bits(npages, l as nat),
        level_offset(npages, l as nat) + pair_of(l, p) / 64 < metadata_words(npages),
        level_offset(npages, l as nat) + pair_of(l, p) / 64 < level_offset(npages, l as nat) + level_words(npages, l as nat),
{
    let bp = block_pages(l);
    lemma_block_pages(l);
    lemma_level_blocks_div(npages, l as nat);
    lemma_pair(bp, p);
    let b = p / bp;
    let q = b / 2;
    assert(pair_of(l, p) == q);
    // b * bp + bp <= npages, so b < npages / bp
    assert((b + 1) * bp <= npages) by (nonlinear_arith) requires p == b * bp, p + bp <= npages;
    vstd::arithmetic::div_mod::lemma_div_is_ordered((b + 1) * bp, npages as int, bp);
    vstd::arithmetic::div_mod::lemma_div_multiples_vanish(b + 1, bp);
    assert((b + 1) * bp == bp * (b + 1)) by (nonlinear_arith);
    let blocks = level_blocks(npages, l as nat) as int;
    assert(b + 1 <= blocks);
    assert(q < (blocks + 1) / 2);
    let bits = level_bits(npages, l as nat) as int;
    assert(q < bits);
    assert(q / 64 < (bits + 63) / 64) by {
        vstd::arithmetic::div_mod::lemma_fundamental_div_mod(q, 64);
        vstd::arithmetic::div_mod::lemma_fundamental_div_mod(bits + 63, 64);
    }
    lemma_level_offset_monotonic(npages, (l + 1) as nat, BLOCK_LEVELS as nat);
}

/// Toggling one bit of a word flips that bit and keeps all others.
pub proof fn lemma_toggle_bit(w: u64, b: u64, c: u64)
    by (bit_vector)
    requires
        b < 64,
        c < 64,
    ensures
        ((w ^ (1u64 << b)) >> c) & 1u64 == (if c == b { (1u64 - ((w >> c) & 1u64)) as u64 } else { (w >> c) & 1u64 }),
        (w >> c) & 1u64 <= 1u64,
        (w & (1u64 << b) == 0u64) == ((w >> b) & 1u64 == 0u64),
{
}

/// Every bit of the zero word is clear.
pub proof fn lemma_zero_bit(c: u64)
    by (bit_vector)
    ensures
        (0u64 >> c) & 1u64 == 0u64,
{
}

// ---------------------------------------------------------------------------
// The allocator
// ---------------------------------------------------------------------------

/// Flag bit `q` of level `l` in the flag words of an area of `npages` pages.
pub open spec fn flag_at(npages: int, flags: Seq<u64>, l: int, q: int) -> bool {
    let w = flags[level_offset(npages as nat, l as nat) + q / 64];
    (w >> ((q % 64) as u64)) & 1u64 == 1u64
}

/// Every listed block is an aligned block inside the area of `npages` pages,
/// and the listed blocks are pairwise disjoint.
#[verifier::opaque]
pub open spec fn blocks_wf(npages: int, lists: Seq<Seq<int>>) -> bool {
    &&& forall|l: int, i: int|
        #![trigger lists[l][i]]
        0 <= l < BLOCK_LEVELS && 0 <= i < lists[l].len() ==> block_ok(npages, l, lists[l][i])
    &&& lists_disjoint(lists)
}

/// The nodes at the starts of the blocks of list `l` link them into a
/// circular list in list order, and the level's head is its first block.
#[verifier::opaque]
pub open spec fn links_level_wf(
    base: int,
    levels: Seq<BlockLevel>,
    nodes: Seq<BlockNode>,
    lists: Seq<Seq<int>>,
    l: int,
) -> bool {
    let s = lists[l];
    &&& (s.len() == 0) == (levels[l].head == 0)
    &&& s.len() > 0 ==> levels[l].head == base + s[0] * PAGE_SIZE as int
    &&& forall|i: int|
        #![trigger nodes[s[i]]]
        0 <= i < s.len() ==> {
            let n = nodes[s[i]];
            &&& n.valid()
            &&& n.next == base + next_of(s, i) * PAGE_SIZE as int
            &&& n.prev == base + prev_of(s, i) * PAGE_SIZE as int
        }
}

/// Flag bit `q` of level `l` is set exactly when one of the two buddies of
/// pair `q` is on the level's list.
#[verifier::opaque]
pub open spec fn flags_wf(npages: int, flags: Seq<u64>, lists: Seq<Seq<int>>) -> bool {
    forall|l: int, q: int|
        0 <= l < BLOCK_LEVELS && 0 <= q < level_bits(npages as nat, l as nat) ==> #[trigger] flag_at(
            npages,
            flags,
            l,
            q,
        ) == (lists[l].contains(2 * q * block_pages(l)) != lists[l].contains(
            (2 * q + 1) * block_pages(l),
        ))
}

/// The free lists after the first block `p` of level `level` is taken and
/// split down to level `min_level`: the upper half at every level from
/// `level - 1` down to `min_level` goes to the tail of that level's list.
pub open spec fn split_lists(lists: Seq<Seq<int>>, level: int, min_level: int, p: int) -> Seq<Seq<int>> {
    Seq::new(
        lists.len(),
        |l: int|
            if l == level {
                lists[l].drop_first()
            } else if min_level <= l < level {
                lists[l].push(p + block_pages(l))
            } else {
                lists[l]
            },
    )
}

/// The lowest level at or above `from` whose free list is not empty
/// (`BLOCK_LEVELS` when there is none).
pub open spec fn first_free_level(lists: Seq<Seq<int>>, from: int) -> int
    decreases BLOCK_LEVELS - from,
{
    if from >= BLOCK_LEVELS {
        BLOCK_LEVELS as int
    } else if from >= 0 && lists[from].len() > 0 {
        from
    } else if from < 0 {
        first_free_level(lists, 0)
    } else {
        first_free_level(lists, from + 1)
    }
}

proof fn lemma_split_lists_index(lists: Seq<Seq<int>>, level: int, min_level: int, p: int, l: int)
    requires
        0 <= l < lists.len(),
    ensures
        split_lists(lists, level, min_level, p)[l] == (if l == level {
            lists[l].drop_first()
        } else if min_level <= l < level {
            lists[l].push(p + block_pages(l))
        } else {
            lists[l]
        }),
        split_lists(lists, level, min_level, p).len() == lists.len(),
{
}

proof fn lemma_block_pages_grow(l: int, k: int)
    requires
        0 <= l < k < BLOCK_LEVELS,
    ensures
        2 * block_pages(l) <= block_pages(k),
{
    lemma_block_pages(l);
    lemma_block_pages(k);
    if l + 1 < k {
        lemma_pow2_strictly_increases((l + 1) as nat, k as nat);
    }
}

/// An offset aligned on a block size is aligned on every smaller block size.
proof fn lemma_align_down_levels(p: int, l: int, k: int)
    requires
        0 <= l <= k < BLOCK_LEVELS,
        p >= 0,
        p % block_pages(k) == 0,
    ensures
        p % block_pages(l) == 0,
        (p + block_pages(l)) % block_pages(l) == 0,
{
    lemma_block_pages(l);
    lemma_block_pages(k);
    vstd::arithmetic::power2::lemma_pow2_adds(l as nat, (k - l) as nat);
    let c = p / block_pages(k);
    vstd::arithmetic::div_mod::lemma_fundamental_div_mod(p, block_pages(k));
    assert(p == block_pages(k) * c);
    assert(p == (c * pow2((k - l) as nat)) * block_pages(l)) by (nonlinear_arith)
        requires p == block_pages(k) * c, block_pages(k) == block_pages(l) * pow2((k - l) as nat);
    vstd::arithmetic::div_mod::lemma_mod_multiples_basic(c * pow2((k - l) as nat), block_pages(l));
    assert(p + block_pages(l) == (c * pow2((k - l) as nat) + 1) * block_pages(l)) by (nonlinear_arith)
        requires p == (c * pow2((k - l) as nat)) * block_pages(l);
    vstd::arithmetic::div_mod::lemma_mod_multiples_basic(c * pow2((k - l) as nat) + 1, block_pages(l));
}

/// The level of the smallest block holding `pages` pages: ceil(log2(pages)).
pub open spec fn alloc_level(pages: usize) -> int {
    if pages <= 1 {
        0
    } else {
        msb((pages - 1) as u64) + 1
    }
}

/// The buddy of the block of level `l` at page offset `p`: the other half of
/// the block of level `l + 1` holding it.
pub open spec fn buddy_of(l: int, p: int) -> int {
    if (p / block_pages(l)) % 2 == 0 {
        p + block_pages(l)
    } else {
        p - block_pages(l)
    }
}

/// The free lists after returning the block of level `l` at `p`: while the
/// block's buddy is free (and the level is below the top), the buddy leaves
/// its list and the two merge into the block of the next level; the final
/// block goes to the tail of its level's list.
pub open spec fn coalesce(lists: Seq<Seq<int>>, l: int, p: int) -> Seq<Seq<int>>
    decreases BLOCK_LEVELS - l,
{
    if l < 0 || l >= BLOCK_LEVELS - 1 || !lists[l].contains(buddy_of(l, p)) {
        lists.update(l, lists[l].push(p))
    } else {
        let b = buddy_of(l, p);
        coalesce(
            lists.update(l, lists[l].remove_value(b)),
            l + 1,
            if p < b {
                p
            } else {
                b
            },
        )
    }
}

// ---------------------------------------------------------------------------
// Free memory
// ---------------------------------------------------------------------------

/// The pages of the block of level `l` at page offset `p`.
pub open spec fn block_set(l: int, p: int) -> Set<int> {
    Set::new(|x: int| p <= x < p + block_pages(l))
}

/// The pages covered by the free blocks on the lists.
pub open spec fn free_pages(lists: Seq<Seq<int>>) -> Set<int> {
    Set::new(
        |x: int|
            exists|l: int, i: int|
                #![trigger lists[l][i]]
                0 <= l < BLOCK_LEVELS && 0 <= i < lists[l].len() && lists[l][i] <= x < lists[l][i]
                    + block_pages(l),
    )
}

/// The search for a non-empty list stops at such a list, at or above where it
/// started.
pub proof fn lemma_first_free_level(lists: Seq<Seq<int>>, from: int)
    requires
        0 <= from <= BLOCK_LEVELS,
    ensures
        from <= first_free_level(lists, from) <= BLOCK_LEVELS,
        first_free_level(lists, from) < BLOCK_LEVELS ==> lists[first_free_level(lists, from)].len() > 0,
    decreases BLOCK_LEVELS - from,
{
    if from < BLOCK_LEVELS && lists[from].len() == 0 {
        lemma_first_free_level(lists, from + 1);
    }
}

/// Every offset `d` with `2^m <= d < 2^top` lies in `[2^l, 2^(l+1))` for a
/// level `l` with `m <= l < top`.
proof fn lemma_split_cover(m: int, top: int, d: int)
    requires
        0 <= m < top < BLOCK_LEVELS,
        block_pages(m) <= d < block_pages(top),
    ensures
        exists|l: int| m <= l < top && #[trigger] block_pages(l) <= d < 2 * block_pages(l),
    decreases top - m,
{
    lemma_block_pages(top - 1);
    if d >= block_pages(top - 1) {
        assert(block_pages(top - 1) <= d < 2 * block_pages(top - 1));
    } else {
        lemma_split_cover(m, top - 1, d);
    }
}

/// Removing one block from a list keeps the remaining blocks disjoint.
proof fn lemma_disjoint_remove(lists: Seq<Seq<int>>, l0: int, i0: int)
    requires
        lists.len() == BLOCK_LEVELS,
        0 <= l0 < BLOCK_LEVELS,
        0 <= i0 < lists[l0].len(),
        lists_disjoint(lists),
    ensures
        lists_disjoint(lists.update(l0, lists[l0].remove(i0))),
        free_pages(lists.update(l0, lists[l0].remove(i0))) == free_pages(lists).difference(
            block_set(l0, lists[l0][i0]),
        ),
{
    let t = lists.update(l0, lists[l0].remove(i0));
    lists[l0].remove_ensures(i0);
    assert forall|l1: int, i1: int, l2: int, i2: int|
        #![trigger t[l1][i1], t[l2][i2]]
        0 <= l1 < BLOCK_LEVELS && 0 <= l2 < BLOCK_LEVELS && 0 <= i1 < t[l1].len() && 0 <= i2
            < t[l2].len() && (l1 != l2 || i1 != i2) implies blocks_disjoint(l1, t[l1][i1], l2, t[l2][i2]) by {
        let j1 = if l1 == l0 && i1 >= i0 { i1 + 1 } else { i1 };
        let j2 = if l2 == l0 && i2 >= i0 { i2 + 1 } else { i2 };
        assert(t[l1][i1] == lists[l1][j1]);
        assert(t[l2][i2] == lists[l2][j2]);
        assert(blocks_disjoint(l1, lists[l1][j1], l2, lists[l2][j2]));
    }
    let b = lists[l0][i0];
    assert forall|x: int| #[trigger] free_pages(t).contains(x) == free_pages(lists).difference(block_set(l0, b)).contains(x) by {
        if free_pages(t).contains(x) {
            let (l, i) = choose|l: int, i: int|
                #![trigger t[l][i]]
                0 <= l < BLOCK_LEVELS && 0 <= i < t[l].len() && t[l][i] <= x < t[l][i] + block_pages(l);
            let j = if l == l0 && i >= i0 { i + 1 } else { i };
            assert(t[l][i] == lists[l][j]);
            assert(blocks_disjoint(l, lists[l][j], l0, lists[l0][i0]));
        }
        if free_pages(lists).contains(x) && !block_set(l0, b).contains(x) {
            let (l, i) = choose|l: int, i: int|
                #![trigger lists[l][i]]
                0 <= l < BLOCK_LEVELS && 0 <= i < lists[l].len() && lists[l][i] <= x < lists[l][i] + block_pages(l);
            assert(l != l0 || i != i0);
            let k = if l == l0 && i > i0 { i - 1 } else { i };
            assert(t[l][k] == lists[l][i]);
        }
    }
    assert(free_pages(t) =~= free_pages(lists).difference(block_set(l0, b)));
}

/// Splitting the first free block of level `top` down to level `m` takes
/// exactly the pages of the block of level `m` at its start out of the free
/// memory, and those pages were free.
pub proof fn lemma_free_pages_split(lists: Seq<Seq<int>>, top: int, m: int, p: int)
    requires
        lists.len() == BLOCK_LEVELS,
        lists_disjoint(lists),
        0 <= m <= top < BLOCK_LEVELS,
        lists[top].len() > 0,
        p == lists[top][0],
    ensures
        block_set(m, p).subset_of(free_pages(lists)),
        free_pages(split_lists(lists, top, m, p)) == free_pages(lists).difference(block_set(m, p)),
{
    let t = split_lists(lists, top, m, p);
    lemma_block_pages(m);
    lemma_block_pages(top);
    if m < top {
        lemma_block_pages_grow(m, top);
    }
    assert forall|l: int| 0 <= l < BLOCK_LEVELS implies #[trigger] t[l] == (if l == top {
        lists[l].drop_first()
    } else if m <= l < top {
        lists[l].push(p + block_pages(l))
    } else {
        lists[l]
    }) by {
        lemma_split_lists_index(lists, top, m, p, l);
    }
    assert forall|x: int| block_set(m, p).contains(x) implies #[trigger] free_pages(lists).contains(x) by {
        assert(lists[top][0] <= x < lists[top][0] + block_pages(top));
    }
    assert forall|x: int| #[trigger] free_pages(t).contains(x) == free_pages(lists).difference(block_set(m, p)).contains(x) by {
        if free_pages(t).contains(x) {
            let (l, i) = choose|l: int, i: int|
                #![trigger t[l][i]]
                0 <= l < BLOCK_LEVELS && 0 <= i < t[l].len() && t[l][i] <= x < t[l][i] + block_pages(l);
            lemma_block_pages(l);
            if l == top {
                assert(t[l][i] == lists[top][i + 1]);
                assert(blocks_disjoint(top, lists[top][i + 1], top, lists[top][0]));
            } else if m <= l < top && i == lists[l].len() {
                lemma_block_pages_grow(l, top);
                assert(lists[top][0] <= x < lists[top][0] + block_pages(top));
                if l > m {
                    lemma_block_pages_grow(m, l);
                }
            } else {
                assert(t[l][i] == lists[l][i]);
                assert(blocks_disjoint(l, lists[l][i], top, lists[top][0]));
            }
        }
        if free_pages(lists).contains(x) && !block_set(m, p).contains(x) {
            let (l, i) = choose|l: int, i: int|
                #![trigger lists[l][i]]
                0 <= l < BLOCK_LEVELS && 0 <= i < lists[l].len() && lists[l][i] <= x < lists[l][i] + block_pages(l);
            if l == top && i == 0 {
                lemma_split_cover(m, top, x - p);
                let k = choose|k: int| m <= k < top && #[trigger] block_pages(k) <= x - p < 2 * block_pages(k);
                lemma_block_pages(k);
                assert(t[k][lists[k].len() as int] == p + block_pages(k));
            } else if l == top {
                assert(t[top][i - 1] == lists[top][i]);
            } else {
                assert(t[l][i] == lists[l][i]);
            }
        }
    }
    assert(free_pages(t) =~= free_pages(lists).difference(block_set(m, p)));
}

/// Splitting the first free block of level `top` down to level `m` keeps the
/// free blocks disjoint, and none of them overlaps the block handed out.
pub proof fn lemma_split_disjoint(lists: Seq<Seq<int>>, top: int, m: int, p: int)
    requires
        lists.len() == BLOCK_LEVELS,
        lists_disjoint(lists),
        0 <= m <= top < BLOCK_LEVELS,
        lists[top].len() > 0,
        p == lists[top][0],
    ensures
        lists_disjoint(split_lists(lists, top, m, p)),
        disjoint_from_lists(split_lists(lists, top, m, p), m, p),
{
    let t = split_lists(lists, top, m, p);
    lemma_block_pages(m);
    lemma_block_pages(top);
    assert forall|l: int| 0 <= l < BLOCK_LEVELS implies #[trigger] t[l] == (if l == top {
        lists[l].drop_first()
    } else if m <= l < top {
        lists[l].push(p + block_pages(l))
    } else {
        lists[l]
    }) by {
        lemma_split_lists_index(lists, top, m, p, l);
    }
    // Where an entry of the split lists comes from: a block of the old lists
    // other than the split one, or a new half at `p + 2^l` (index -1).
    assert forall|l: int, i: int|
        0 <= l < BLOCK_LEVELS && 0 <= i < t[l].len() implies ({
            let j = if l == top { i + 1 } else if m <= l < top && i == lists[l].len() { -1 } else { i };
            &&& (j >= 0 ==> 0 <= j < lists[l].len() && #[trigger] t[l][i] == lists[l][j] && (l != top || j != 0))
            &&& (j < 0 ==> m <= l < top && t[l][i] == p + block_pages(l))
        }) by {
    }
    assert forall|l1: int, i1: int, l2: int, i2: int|
        #![trigger t[l1][i1], t[l2][i2]]
        0 <= l1 < BLOCK_LEVELS && 0 <= l2 < BLOCK_LEVELS && 0 <= i1 < t[l1].len() && 0 <= i2
            < t[l2].len() && (l1 != l2 || i1 != i2) implies blocks_disjoint(l1, t[l1][i1], l2, t[l2][i2]) by {
        let j1 = if l1 == top { i1 + 1 } else if m <= l1 < top && i1 == lists[l1].len() { -1 } else { i1 };
        let j2 = if l2 == top { i2 + 1 } else if m <= l2 < top && i2 == lists[l2].len() { -1 } else { i2 };
        lemma_block_pages(l1);
        lemma_block_pages(l2);
        if j1 >= 0 && j2 >= 0 {
            assert(blocks_disjoint(l1, lists[l1][j1], l2, lists[l2][j2]));
        } else if j1 >= 0 {
            lemma_block_pages_grow(l2, top);
            assert(blocks_disjoint(l1, lists[l1][j1], top, lists[top][0]));
        } else if j2 >= 0 {
            lemma_block_pages_grow(l1, top);
            assert(blocks_disjoint(l2, lists[l2][j2], top, lists[top][0]));
        } else {
            assert(l1 != l2);
            if l1 < l2 {
                lemma_block_pages_grow(l1, l2);
            } else {
                lemma_block_pages_grow(l2, l1);
            }
        }
    }
    assert forall|l2: int, i2: int|
        #![trigger t[l2][i2]]
        0 <= l2 < BLOCK_LEVELS && 0 <= i2 < t[l2].len() implies blocks_disjoint(m, p, l2, t[l2][i2]) by {
        let j2 = if l2 == top { i2 + 1 } else if m <= l2 < top && i2 == lists[l2].len() { -1 } else { i2 };
        lemma_block_pages(l2);
        if m < top {
            lemma_block_pages_grow(m, top);
        }
        if j2 >= 0 {
            assert(blocks_disjoint(l2, lists[l2][j2], top, lists[top][0]));
        } else if m < l2 {
            lemma_block_pages_grow(m, l2);
        }
    }
}

/// Returning a block that overlaps no free block adds exactly its pages to
/// the free memory, however many merges with free buddies it takes.
pub proof fn lemma_free_pages_coalesce(lists: Seq<Seq<int>>, l: int, p: int)
    requires
        lists.len() == BLOCK_LEVELS,
        lists_disjoint(lists),
        0 <= l < BLOCK_LEVELS,
        p >= 0,
        p % block_pages(l) == 0,
        disjoint_from_lists(lists, l, p),
    ensures
        free_pages(coalesce(lists, l, p)) == free_pages(lists).union(block_set(l, p)),
    decreases BLOCK_LEVELS - l,
{
    lemma_block_pages(l);
    let b = buddy_of(l, p);
    if l >= BLOCK_LEVELS - 1 || !lists[l].contains(b) {
        let t = lists.update(l, lists[l].push(p));
        assert forall|x: int| #[trigger] free_pages(t).contains(x) == free_pages(lists).union(block_set(l, p)).contains(x) by {
            if free_pages(t).contains(x) {
                let (l2, i) = choose|l2: int, i: int|
                    #![trigger t[l2][i]]
                    0 <= l2 < BLOCK_LEVELS && 0 <= i < t[l2].len() && t[l2][i] <= x < t[l2][i] + block_pages(l2);
                if !(l2 == l && i == lists[l].len()) {
                    assert(t[l2][i] == lists[l2][i]);
                }
            }
            if free_pages(lists).contains(x) {
                let (l2, i) = choose|l2: int, i: int|
                    #![trigger lists[l2][i]]
                    0 <= l2 < BLOCK_LEVELS && 0 <= i < lists[l2].len() && lists[l2][i] <= x < lists[l2][i] + block_pages(l2);
                assert(t[l2][i] == lists[l2][i]);
            }
            if block_set(l, p).contains(x) {
                assert(t[l][lists[l].len() as int] == p);
            }
        }
        assert(free_pages(t) =~= free_pages(lists).union(block_set(l, p)));
    } else {
        let i0 = choose|i: int| 0 <= i < lists[l].len() && lists[l][i] == b;
        assert forall|j: int| 0 <= j < lists[l].len() && j != i0 implies #[trigger] lists[l][j] != b by {
            assert(blocks_disjoint(l, lists[l][j], l, lists[l][i0]));
        }
        PageAllocator::lemma_remove_contains(lists[l], i0, b);
        PageAllocator::lemma_merge_disjoint(lists, l, p, b, i0);
        lemma_disjoint_remove(lists, l, i0);
        let t = lists.update(l, lists[l].remove(i0));
        let m = if p < b { p } else { b };
        let bp = block_pages(l);
        lemma_pair(bp, p);
        let q = pair_of(l, p);
        assert(m == 2 * q * bp);
        assert(m == q * block_pages(l + 1)) by (nonlinear_arith)
            requires m == 2 * q * bp, block_pages(l + 1) == 2 * bp;
        vstd::arithmetic::div_mod::lemma_mod_multiples_basic(q, block_pages(l + 1));
        lemma_free_pages_coalesce(t, l + 1, m);
        // The merged block is made of the block and its buddy.
        assert(block_set(l + 1, m) =~= block_set(l, p).union(block_set(l, b)));
        assert forall|x: int| block_set(l, b).contains(x) implies #[trigger] free_pages(lists).contains(x) by {
            assert(lists[l][i0] <= x < lists[l][i0] + block_pages(l));
        }
        assert(free_pages(coalesce(lists, l, p)) =~= free_pages(lists).union(block_set(l, p)));
    }
}

/// The pages `[a, a + n)`.
pub open spec fn span_set(a: int, n: int) -> Set<int> {
    Set::new(|x: int| a <= x < a + n)
}

/// The pages of the available ranges that an allocator serving the area at
/// `area_base` of `area_size` bytes accepts, numbered from `origin`.
pub open spec fn accepted_pages(ranges: Seq<Range>, vb: usize, area_base: usize, area_size: usize, origin: usize) -> Set<int>
    decreases ranges.len(),
{
    if ranges.len() == 0 {
        Set::empty()
    } else {
        let prev = accepted_pages(ranges.drop_last(), vb, area_base, area_size, origin);
        let r = ranges.last();
        if range_accepted(r, vb, area_base, area_size) {
            prev.union(span_set(range_start(r, vb, origin), range_pages(r)))
        } else {
            prev
        }
    }
}

/// Appending a block to a list adds its pages to the free memory.
proof fn lemma_free_pages_push(lists: Seq<Seq<int>>, l: int, p: int)
    requires
        lists.len() == BLOCK_LEVELS,
        0 <= l < BLOCK_LEVELS,
    ensures
        free_pages(lists.update(l, lists[l].push(p))) == free_pages(lists).union(block_set(l, p)),
{
    let t = lists.update(l, lists[l].push(p));
    assert forall|x: int| #[trigger] free_pages(t).contains(x) == free_pages(lists).union(block_set(l, p)).contains(x) by {
        if free_pages(t).contains(x) {
            let (l2, i) = choose|l2: int, i: int|
                #![trigger t[l2][i]]
                0 <= l2 < BLOCK_LEVELS && 0 <= i < t[l2].len() && t[l2][i] <= x < t[l2][i] + block_pages(l2);
            if !(l2 == l && i == lists[l].len()) {
                assert(t[l2][i] == lists[l2][i]);
            }
        }
        if free_pages(lists).contains(x) {
            let (l2, i) = choose|l2: int, i: int|
                #![trigger lists[l2][i]]
                0 <= l2 < BLOCK_LEVELS && 0 <= i < lists[l2].len() && lists[l2][i] <= x < lists[l2][i] + block_pages(l2);
            assert(t[l2][i] == lists[l2][i]);
        }
        if block_set(l, p).contains(x) {
            assert(t[l][lists[l].len() as int] == p);
        }
    }
    assert(free_pages(t) =~= free_pages(lists).union(block_set(l, p)));
}

/// Carving `npr` pages at `a` adds exactly those pages to the free memory.
proof fn lemma_carve_pages(lists: Seq<Seq<int>>, a: int, npr: int)
    requires
        lists.len() == BLOCK_LEVELS,
        0 <= a <= u64::MAX,
        npr <= u64::MAX,
        a + npr <= u64::MAX,
    ensures
        free_pages(carve(lists, a, npr)) == free_pages(lists).union(span_set(a, npr)),
    decreases npr,
{
    if npr <= 0 {
        assert(span_set(a, npr) =~= Set::<int>::empty());
        assert(free_pages(lists).union(span_set(a, npr)) =~= free_pages(lists));
    } else {
        let l = carve_level(a, npr);
        lemma_carve_block(a, npr);
        let bp = block_pages(l);
        let t = lists.update(l, lists[l].push(a));
        lemma_free_pages_push(lists, l, a);
        lemma_carve_pages(t, a + bp, npr - bp);
        assert(block_set(l, a).union(span_set(a + bp, npr - bp)) =~= span_set(a, npr));
        assert(free_pages(lists).union(block_set(l, a)).union(span_set(a + bp, npr - bp)) =~= free_pages(lists).union(
            span_set(a, npr),
        ));
    }
}

/// Initialization frees every page of every available range that the
/// allocator accepts, and no other page: the free memory of an allocator made
/// by `PageAllocator::new` is exactly the accepted ranges' pages.
pub proof fn law_init_frees_available_pages(ranges: Seq<Range>, vb: usize, area_base: usize, area_size: usize, origin: usize)
    requires
        origin <= area_base,
        area_base + area_size <= usize::MAX,
    ensures
        free_pages(init_lists(ranges, vb, area_base, area_size, origin, empty_lists())) == accepted_pages(
            ranges,
            vb,
            area_base,
            area_size,
            origin,
        ),
    decreases ranges.len(),
{
    if ranges.len() == 0 {
        assert(free_pages(empty_lists()) =~= Set::<int>::empty());
    } else {
        law_init_frees_available_pages(ranges.drop_last(), vb, area_base, area_size, origin);
        let prev = init_lists(ranges.drop_last(), vb, area_base, area_size, origin, empty_lists());
        lemma_init_lists_len(ranges.drop_last(), vb, area_base, area_size, origin);
        let r = ranges.last();
        if range_accepted(r, vb, area_base, area_size) {
            lemma_carve_pages(prev, range_start(r, vb, origin), range_pages(r));
        }
    }
}

/// Initialization keeps one list per level.
proof fn lemma_init_lists_len(ranges: Seq<Range>, vb: usize, area_base: usize, area_size: usize, origin: usize)
    requires
        origin <= area_base,
        area_base + area_size <= usize::MAX,
    ensures
        init_lists(ranges, vb, area_base, area_size, origin, empty_lists()).len() == BLOCK_LEVELS,
    decreases ranges.len(),
{
    if ranges.len() > 0 {
        lemma_init_lists_len(ranges.drop_last(), vb, area_base, area_size, origin);
        let prev = init_lists(ranges.drop_last(), vb, area_base, area_size, origin, empty_lists());
        let r = ranges.last();
        if range_accepted(r, vb, area_base, area_size) {
            lemma_carve_len(prev, range_start(r, vb, origin), range_pages(r));
        }
    }
}

/// Carving keeps one list per level.
proof fn lemma_carve_len(lists: Seq<Seq<int>>, a: int, npr: int)
    requires
        lists.len() == BLOCK_LEVELS,
        0 <= a <= u64::MAX,
        npr <= u64::MAX,
        a + npr <= u64::MAX,
    ensures
        carve(lists, a, npr).len() == BLOCK_LEVELS,
    decreases npr,
{
    if npr > 0 {
        let l = carve_level(a, npr);
        lemma_carve_block(a, npr);
        lemma_carve_len(lists.update(l, lists[l].push(a)), a + block_pages(l), npr - block_pages(l));
    }
}

/// Whether `n` is a power of 2.
pub open spec fn is_power_of_2(n: usize) -> bool {
    n != 0 && n & ((n - 1) as usize) == 0
}

/// The highest level of a block starting at page offset `a`: limited by the
/// alignment of page number `a` and by the largest block size.
pub open spec fn align_level(a: int) -> int {
    if a == 0 {
        (BLOCK_LEVELS - 1) as int
    } else {
        let k = msb(lowest_bit(a as u64)) as int;
        if k < BLOCK_LEVELS - 1 {
            k
        } else {
            (BLOCK_LEVELS - 1) as int
        }
    }
}

/// The level of the block carved at page offset `a` with `npr` pages left:
/// the largest block that is aligned at `a` and fits in the remaining pages.
pub open spec fn carve_level(a: int, npr: int) -> int {
    let k = msb(npr as u64) as int;
    let m = align_level(a);
    if k < m {
        k
    } else {
        m
    }
}

/// The free lists after carving the `npr` pages starting at page offset `a`
/// into maximal aligned blocks, each appended to its level's list.
pub open spec fn carve(lists: Seq<Seq<int>>, a: int, npr: int) -> Seq<Seq<int>>
    decreases npr,
    when 0 <= a <= u64::MAX && npr <= u64::MAX
{
    if npr <= 0 {
        lists
    } else {
        let l = carve_level(a, npr);
        proof {
            lemma_carve_block(a, npr);
        }
        carve(lists.update(l, lists[l].push(a)), a + block_pages(l), npr - block_pages(l))
    }
}

/// An available range is used by an allocator serving the area at
/// `area_base` (virtual) of `area_size` bytes: its physical addresses are in
/// the low part of the address space and its virtual image lies inside the
/// area.
pub open spec fn range_accepted(r: Range, vb: usize, area_base: usize, area_size: usize) -> bool {
    &&& r.base & vb == 0
    &&& r.base <= vb
    &&& r.size <= vb - r.base
    &&& r.base + vb >= area_base
    &&& r.base + vb + r.size <= area_base + area_size
}

/// Page number of the start of an accepted range, counted from the virtual
/// address `origin`.
pub open spec fn range_start(r: Range, vb: usize, origin: usize) -> int {
    (r.base + vb - origin) / PAGE_SIZE as int
}

/// Number of whole pages in a range.
pub open spec fn range_pages(r: Range) -> int {
    (r.size / PAGE_SIZE) as int
}

/// The free lists after carving every accepted range of `ranges`, in order,
/// starting from `lists`; pages are numbered from the virtual address
/// `origin`.
pub open spec fn init_lists(
    ranges: Seq<Range>,
    vb: usize,
    area_base: usize,
    area_size: usize,
    origin: usize,
    lists: Seq<Seq<int>>,
) -> Seq<Seq<int>>
    decreases ranges.len(),
{
    if ranges.len() == 0 {
        lists
    } else {
        let prev = init_lists(ranges.drop_last(), vb, area_base, area_size, origin, lists);
        let r = ranges.last();
        if range_accepted(r, vb, area_base, area_size) {
            carve(prev, range_start(r, vb, origin), range_pages(r))
        } else {
            prev
        }
    }
}

/// Free lists with every level empty.
pub open spec fn empty_lists() -> Seq<Seq<int>> {
    Seq::new(BLOCK_LEVELS as nat, |l: int| Seq::<int>::empty())
}

/// The accepted ranges are page aligned and pairwise disjoint.
pub open spec fn ranges_ok(ranges: Seq<Range>, vb: usize, area_base: usize, area_size: usize) -> bool {
    &&& forall|i: int|
        0 <= i < ranges.len() && range_accepted(#[trigger] ranges[i], vb, area_base, area_size)
            ==> ranges[i].base % PAGE_SIZE == 0
    &&& forall|i: int, j: int|
        0 <= i < ranges.len() && 0 <= j < ranges.len() && i != j && range_accepted(
            #[trigger] ranges[i],
            vb,
            area_base,
            area_size,
        ) && range_accepted(#[trigger] ranges[j], vb, area_base, area_size) ==> ranges[i].base
            + ranges[i].size <= ranges[j].base || ranges[j].base + ranges[j].size <= ranges[i].base
}

/// An offset aligned on `2^k` is aligned on every smaller power of 2.
pub proof fn lemma_mod_pow2_down(p: int, l: nat, k: nat)
    requires
        l <= k,
        p >= 0,
        p % (pow2(k) as int) == 0,
    ensures
        p % (pow2(l) as int) == 0,
{
    lemma_pow2_pos(l);
    lemma_pow2_pos(k);
    vstd::arithmetic::power2::lemma_pow2_adds(l, (k - l) as nat);
    let c = p / (pow2(k) as int);
    vstd::arithmetic::div_mod::lemma_fundamental_div_mod(p, pow2(k) as int);
    assert(p == (c * pow2((k - l) as nat)) * pow2(l)) by (nonlinear_arith)
        requires p == pow2(k) * c, pow2(k) == pow2(l) * pow2((k - l) as nat);
    vstd::arithmetic::div_mod::lemma_mod_multiples_basic(c * pow2((k - l) as nat), pow2(l) as int);
}

/// The carved block is aligned and fits in the remaining pages.
pub proof fn lemma_carve_block(a: int, npr: int)
    requires
        0 <= a,
        1 <= npr <= u64::MAX,
        a <= u64::MAX,
    ensures
        0 <= carve_level(a, npr) < BLOCK_LEVELS,
        a % block_pages(carve_level(a, npr)) == 0,
        block_pages(carve_level(a, npr)) <= npr,
        1 <= block_pages(carve_level(a, npr)),
{
    let l = carve_level(a, npr);
    let k = msb(npr as u64);
    crate::arch::common64::bits::lemma_msb(npr as u64);
    vstd::bits::lemma_u64_shr_is_div(npr as u64, k);
    lemma_pow2_pos(k as nat);
    vstd::arithmetic::div_mod::lemma_fundamental_div_mod(npr, pow2(k as nat) as int);
    assert(pow2(k as nat) <= npr) by (nonlinear_arith)
        requires npr == pow2(k as nat) * (npr / (pow2(k as nat) as int)) + npr % (pow2(k as nat) as int),
        npr / (pow2(k as nat) as int) == 1, npr % (pow2(k as nat) as int) >= 0;
    if l < k {
        vstd::arithmetic::power2::lemma_pow2_strictly_increases(l as nat, k as nat);
    }
    lemma_block_pages(l);
    if a != 0 {
        lemma_lowest_bit_divides(a as u64);
        let j = msb(lowest_bit(a as u64)) as nat;
        lemma_mod_pow2_down(a, l as nat, j);
    }
}

/// A block of level `l` at `p` does not overlap the `n` pages starting at
/// page offset `start`.
pub open spec fn span_disjoint(l: int, p: int, start: int, n: int) -> bool {
    p + block_pages(l) <= start || start + n <= p
}

/// Physical base of the area served by an allocator made from `base`: the
/// address aligned down to a page.
pub open spec fn new_phys_base(base: usize) -> int {
    base - base % PAGE_SIZE
}

/// Size of the area served by an allocator made from `size`: the size aligned
/// down to a page.
pub open spec fn new_area_size(size: usize) -> int {
    size - size % PAGE_SIZE
}

/// Physical address from which an allocator made from `base` numbers its
/// pages: the area base aligned down to the largest block size, so that a
/// block aligned on its size relative to it is aligned on its size in
/// physical memory.
pub open spec fn new_origin(base: usize) -> int {
    new_phys_base(base) - new_phys_base(base) % MAX_BLOCK_SIZE as int
}

/// Number of bytes from an allocator's page origin to the end of its area.
pub open spec fn new_span(base: usize, size: usize) -> int {
    new_phys_base(base) - new_origin(base) + new_area_size(size)
}

/// Whether an allocator can be made for the area at physical `base` of `size`
/// bytes, with `n` available ranges: the aligned area is not at address 0,
/// holds at least one page, is physical, and its virtual end fits in the
/// address space.
pub open spec fn new_accepted(base: usize, size: usize, vb: usize, n: int) -> bool {
    let b = new_phys_base(base);
    let s = new_area_size(size);
    &&& b != 0
    &&& s >= PAGE_SIZE
    &&& (b as usize) & vb == 0
    &&& b <= vb
    &&& s <= vb - b
    &&& vb + b + s <= usize::MAX
    &&& n > 0
}

/// The buddy allocator for one contiguous memory area.
pub struct PageAllocator {
    /// Virtual address of page number 0: the area base aligned down to the
    /// largest block size.
    base: usize,
    /// Size in bytes from `base` to the end of the area (a whole number of
    /// pages).
    size: usize,
    /// Kernel segment base: virtual = physical + virtual_base.
    virtual_base: usize,
    /// Per-level list heads and flag word offsets.
    levels: Vec<BlockLevel>,
    /// One bit per pair of buddy blocks at every level.
    flags: Vec<u64>,
    /// The node words at the start of every page of the area.
    nodes: Vec<BlockNode>,
    /// The free lists: page offsets of the free blocks of each level, in list
    /// order starting from the head.
    lists: Ghost<Seq<Seq<int>>>,
}

impl PageAllocator {
    /// Number of pages from page number 0 to the end of the served area.
    pub closed spec fn num_pages(&self) -> int {
        (self.size / PAGE_SIZE) as int
    }

    /// Virtual address of page number 0: the served area's base aligned down
    /// to the largest block size. Pages below the area are never free.
    pub closed spec fn area_base(&self) -> int {
        self.base as int
    }

    /// The size in bytes of the allocator's flag metadata.
    pub closed spec fn metadata_size(&self) -> int {
        8 * self.flags@.len() as int
    }

    /// The kernel segment base address used to translate addresses.
    pub closed spec fn kernel_base(&self) -> int {
        self.virtual_base as int
    }

    /// The free lists: for every level, the page offsets (relative to the
    /// area base) of its free blocks in list order, head first.
    pub closed spec fn free_lists(&self) -> Seq<Seq<int>> {
        self.lists@
    }

    /// Virtual address of page offset `p`.
    pub open spec fn addr_of(&self, p: int) -> int {
        self.area_base() + p * PAGE_SIZE as int
    }

    /// Physical address of page offset `p`.
    pub open spec fn phys_of(&self, p: int) -> int {
        self.area_base() - self.kernel_base() + p * PAGE_SIZE as int
    }

    /// Flag bit `q` of level `l`.
    closed spec fn flag(&self, l: int, q: int) -> bool {
        flag_at(self.num_pages(), self.flags@, l, q)
    }

    /// Basic shape of the allocator.
    closed spec fn wf_struct(&self) -> bool {
        let npages = self.num_pages();
        &&& self.base > 0
        &&& self.base % PAGE_SIZE == 0
        &&& self.size % PAGE_SIZE == 0
        &&& self.size >= PAGE_SIZE
        &&& self.base + self.size <= usize::MAX
        &&& 0 < self.virtual_base <= self.base
        &&& self.virtual_base % PAGE_SIZE == 0
        &&& (self.base - self.virtual_base) % MAX_BLOCK_SIZE as int == 0
        &&& self.levels@.len() == BLOCK_LEVELS
        &&& forall|l: int|
            #![trigger self.levels@[l]]
            0 <= l < BLOCK_LEVELS ==> self.levels@[l].offset == level_offset(
                npages as nat,
                l as nat,
            )
        &&& self.flags@.len() == metadata_words(npages as nat)
        &&& self.nodes@.len() == npages
        &&& self.lists@.len() == BLOCK_LEVELS
    }

    /// Every listed block is an aligned block inside the area, and the listed
    /// blocks are pairwise disjoint.
    closed spec fn wf_blocks(&self) -> bool {
        blocks_wf(self.num_pages(), self.lists@)
    }

    /// The node links of level `l` form the circular list `lists[l]`.
    closed spec fn wf_links_level(&self, l: int) -> bool {
        links_level_wf(self.base as int, self.levels@, self.nodes@, self.lists@, l)
    }

    closed spec fn wf_links(&self) -> bool {
        forall|l: int| 0 <= l < BLOCK_LEVELS ==> #[trigger] self.wf_links_level(l)
    }

    /// Flag bit `q` of level `l` is set exactly when one of the two buddies of
    /// pair `q` is on the level's list.
    closed spec fn wf_flags(&self) -> bool {
        flags_wf(self.num_pages(), self.flags@, self.lists@)
    }

    /// The allocator's invariant.
    pub closed spec fn wf(&self) -> bool {
        &&& self.wf_struct()
        &&& self.wf_blocks()
        &&& self.wf_links()
        &&& self.wf_flags()
    }

    /// The address layout of a well-formed allocator: page number 0 is a
    /// virtual address at or above the kernel segment base whose physical
    /// address is a multiple of the largest block size, and the numbered
    /// pages end within the address space.
    pub proof fn lemma_layout(&self)
        requires
            self.wf(),
        ensures
            0 < self.kernel_base() <= self.area_base(),
            self.kernel_base() % PAGE_SIZE as int == 0,
            (self.area_base() - self.kernel_base()) % MAX_BLOCK_SIZE as int == 0,
            self.num_pages() >= 1,
            self.area_base() + self.num_pages() * PAGE_SIZE <= usize::MAX,
    {
    }

    /// Two different flags of the level layout live in different bits.
    proof fn lemma_flag_positions(npages: nat, l1: int, q1: int, l2: int, q2: int)
        requires
            0 <= l1 < BLOCK_LEVELS,
            0 <= l2 < BLOCK_LEVELS,
            0 <= q1 < level_bits(npages, l1 as nat),
            0 <= q2 < level_bits(npages, l2 as nat),
            l1 != l2 || q1 != q2,
        ensures
            level_offset(npages, l1 as nat) + q1 / 64 != level_offset(npages, l2 as nat) + q2 / 64
                || q1 % 64 != q2 % 64,
    {
        if l1 < l2 {
            lemma_level_offset_monotonic(npages, l1 as nat, l2 as nat);
        } else if l2 < l1 {
            lemma_level_offset_monotonic(npages, l2 as nat, l1 as nat);
        } else {
            vstd::arithmetic::div_mod::lemma_fundamental_div_mod(q1, 64);
            vstd::arithmetic::div_mod::lemma_fundamental_div_mod(q2, 64);
        }
    }

    /// Get the flag index and bit for a block at a given level.
    ///
    /// Returns the absolute word index into the flags and the bit index in
    /// that word of the block's buddy pair.
    fn get_flag_index_and_bit(&self, block_addr: usize, level: usize) -> (r: (usize, usize))
        requires
            self.wf_struct(),
            level < BLOCK_LEVELS,
            block_addr >= self.base,
            (block_addr - self.base) % PAGE_SIZE as int == 0,
            block_ok(self.num_pages(), level as int, (block_addr - self.base) / PAGE_SIZE as int),
        ensures
            ({
                let p = (block_addr - self.base) / PAGE_SIZE as int;
                let q = pair_of(level as int, p);
                &&& r.0 == level_offset(self.num_pages() as nat, level as nat) + q / 64
                &&& r.1 == q % 64
                &&& r.0 < self.flags@.len()
                &&& 0 <= q < level_bits(self.num_pages() as nat, level as nat)
            }),
    {
        let ghost p = (block_addr - self.base) / PAGE_SIZE as int;
        proof {
            lemma_pair_bound(self.num_pages() as nat, level as int, p);
            lemma_word_ops((block_addr - self.base) as usize);
        }
        let page_num = (block_addr - self.base) >> PAGE_SHIFT;
        proof {
            vstd::bits::lemma_usize_shr_is_div(page_num, level);
        }
        let block_num = page_num >> level;
        proof {
            lemma_word_ops(block_num);
        }
        let block_pair = block_num >> 1;
        proof {
            lemma_word_ops(block_pair);
            lemma_level_bounds(self.num_pages() as nat, BLOCK_LEVELS as nat);
        }
        let index = self.levels[level].offset + (block_pair >> INDEX_SHIFT);
        let bit = block_pair & WORD_MASK;
        (index, bit)
    }

    /// Flip the flag bit of the buddy pair holding the block at `block_addr`.
    fn toggle_pair(&mut self, level: usize, block_addr: usize)
        requires
            old(self).wf_struct(),
            level < BLOCK_LEVELS,
            block_addr >= old(self).base,
            (block_addr - old(self).base) % PAGE_SIZE as int == 0,
            block_ok(
                old(self).num_pages(),
                level as int,
                (block_addr - old(self).base) / PAGE_SIZE as int,
            ),
        ensures
            final(self).wf_struct(),
            final(self).base == old(self).base,
            final(self).size == old(self).size,
            final(self).virtual_base == old(self).virtual_base,
            final(self).levels@ == old(self).levels@,
            final(self).nodes@ == old(self).nodes@,
            final(self).lists@ == old(self).lists@,
            forall|l: int, q: int|
                0 <= l < BLOCK_LEVELS && 0 <= q < level_bits(old(self).num_pages() as nat, l as nat)
                    ==> #[trigger] final(self).flag(l, q) == (if l == level && q == pair_of(
                    level as int,
                    (block_addr - old(self).base) / PAGE_SIZE as int,
                ) {
                    !old(self).flag(l, q)
                } else {
                    old(self).flag(l, q)
                }),
    {
        let (index, bit_idx) = self.get_flag_index_and_bit(block_addr, level);
        let w = self.flags[index];
        self.flags.set(index, w ^ (1u64 << (bit_idx as u64)));
        proof {
            let npages = self.num_pages() as nat;
            let q0 = pair_of(level as int, (block_addr - self.base) / PAGE_SIZE as int);
            assert forall|l: int, q: int|
                0 <= l < BLOCK_LEVELS && 0 <= q < level_bits(npages, l as nat) implies #[trigger] self.flag(l, q) == (if l == level && q == q0 {
                !old(self).flag(l, q)
            } else {
                old(self).flag(l, q)
            }) by {
                let i = level_offset(npages, l as nat) + q / 64;
                lemma_level_offset_monotonic(npages, (l + 1) as nat, BLOCK_LEVELS as nat);
                assert(i < self.flags@.len()) by {
                    vstd::arithmetic::div_mod::lemma_div_is_ordered(q, level_bits(npages, l as nat) as int, 64);
                    assert(q / 64 < level_words(npages, l as nat)) by {
                        vstd::arithmetic::div_mod::lemma_fundamental_div_mod(q, 64);
                        vstd::arithmetic::div_mod::lemma_fundamental_div_mod((level_bits(npages, l as nat) + 63) as int, 64);
                    }
                }
                lemma_toggle_bit(w, bit_idx as u64, (q % 64) as u64);
                if l == level && q == q0 {
                } else {
                    Self::lemma_flag_positions(npages, l, q, level as int, q0);
                    if i == index {
                        assert((q % 64) as u64 != bit_idx as u64);
                    }
                }
            }
        }
    }

    /// Flags stay consistent when the membership of a single block `x` of
    /// level `l0` changes and the flag of its pair flips.
    proof fn lemma_flags_update(a: &Self, b: &Self, l0: int, x: int)
        requires
            a.wf_flags(),
            a.wf_struct(),
            b.wf_struct(),
            a.size == b.size,
            0 <= l0 < BLOCK_LEVELS,
            block_ok(a.num_pages(), l0, x),
            b.lists@ == a.lists@.update(l0, b.lists@[l0]),
            forall|y: int| #[trigger] b.lists@[l0].contains(y) == (a.lists@[l0].contains(y) != (y == x)),
            forall|l: int, q: int|
                0 <= l < BLOCK_LEVELS && 0 <= q < level_bits(a.num_pages() as nat, l as nat)
                    ==> #[trigger] b.flag(l, q) == (if l == l0 && q == pair_of(l0, x) {
                    !a.flag(l, q)
                } else {
                    a.flag(l, q)
                }),
        ensures
            b.wf_flags(),
    {
        reveal(flags_wf);
        let npages = a.num_pages() as nat;
        assert forall|l: int, q: int|
            0 <= l < BLOCK_LEVELS && 0 <= q < level_bits(npages, l as nat) implies #[trigger] flag_at(b.num_pages(), b.flags@, l, q) == (
            b.lists@[l].contains(2 * q * block_pages(l)) != b.lists@[l].contains(
                (2 * q + 1) * block_pages(l),
            )) by {
            assert(b.flag(l, q) == flag_at(b.num_pages(), b.flags@, l, q));
            assert(a.flag(l, q) == flag_at(a.num_pages(), a.flags@, l, q));
            assert(a.flag(l, q) == (a.lists@[l].contains(2 * q * block_pages(l)) != a.lists@[l].contains(
                (2 * q + 1) * block_pages(l),
            )));
            if l == l0 {
                let bp = block_pages(l);
                lemma_block_pages(l);
                lemma_pair_members(bp, q);
                lemma_pair(bp, x);
                let q0 = pair_of(l0, x);
                assert(b.lists@[l0].contains(2 * q * bp) == (a.lists@[l0].contains(2 * q * bp) != (2 * q * bp == x)));
                assert(b.lists@[l0].contains((2 * q + 1) * bp) == (a.lists@[l0].contains((2 * q + 1) * bp) != ((2 * q + 1) * bp == x)));
                if q == q0 {
                    assert(x == 2 * q * bp || x == (2 * q + 1) * bp);
                    assert(2 * q * bp != (2 * q + 1) * bp) by (nonlinear_arith) requires bp > 0;
                } else {
                    assert(x != 2 * q * bp);
                    assert(x != (2 * q + 1) * bp);
                }
            }
        }
    }

    /// Read the node at the start of the block at `addr`.
    ///
    /// The node's checksum must be intact.
    fn get_block_node(&self, addr: usize) -> (r: BlockNode)
        requires
            self.wf_struct(),
            addr >= self.base,
            (addr - self.base) % PAGE_SIZE as int == 0,
            (addr - self.base) / (PAGE_SIZE as int) < self.num_pages(),
            self.nodes@[(addr - self.base) / PAGE_SIZE as int].valid(),
        ensures
            r == self.nodes@[(addr - self.base) / PAGE_SIZE as int],
    {
        proof {
            lemma_word_ops((addr - self.base) as usize);
        }
        self.nodes[(addr - self.base) >> PAGE_SHIFT]
    }

    /// Write the node at the start of the page at `addr`.
    fn set_block_node(&mut self, addr: usize, node: BlockNode)
        requires
            old(self).wf_struct(),
            addr >= old(self).base,
            (addr - old(self).base) % PAGE_SIZE as int == 0,
            (addr - old(self).base) / (PAGE_SIZE as int) < old(self).num_pages(),
        ensures
            final(self).wf_struct(),
            final(self).base == old(self).base,
            final(self).size == old(self).size,
            final(self).virtual_base == old(self).virtual_base,
            final(self).levels@ == old(self).levels@,
            final(self).flags@ == old(self).flags@,
            final(self).lists@ == old(self).lists@,
            final(self).nodes@ == old(self).nodes@.update((addr - old(self).base) / PAGE_SIZE as int, node),
    {
        proof {
            lemma_word_ops((addr - self.base) as usize);
        }
        self.nodes.set((addr - self.base) >> PAGE_SHIFT, node);
    }

    /// Set the head of a level's list.
    fn set_head(&mut self, level: usize, head: usize)
        requires
            old(self).wf_struct(),
            level < BLOCK_LEVELS,
        ensures
            final(self).wf_struct(),
            final(self).base == old(self).base,
            final(self).size == old(self).size,
            final(self).virtual_base == old(self).virtual_base,
            final(self).flags@ == old(self).flags@,
            final(self).nodes@ == old(self).nodes@,
            final(self).lists@ == old(self).lists@,
            final(self).levels@.len() == BLOCK_LEVELS,
            final(self).levels@[level as int].head == head,
            forall|l: int| 0 <= l < BLOCK_LEVELS && l != level ==> #[trigger] final(self).levels@[l] == old(self).levels@[l],
            forall|l: int| 0 <= l < BLOCK_LEVELS ==> #[trigger] final(self).levels@[l].offset == old(self).levels@[l].offset,
    {
        let offset = self.levels[level].offset;
        self.levels.set(level, BlockLevel { head, offset });
    }

    /// A listed block is an aligned block inside the area.
    proof fn lemma_listed(&self, l: int, i: int)
        requires
            self.wf_struct(),
            self.wf_blocks(),
            0 <= l < BLOCK_LEVELS,
            0 <= i < self.lists@[l].len(),
        ensures
            block_ok(self.num_pages(), l, self.lists@[l][i]),
            0 <= self.lists@[l][i] < self.num_pages(),
    {
        reveal(blocks_wf);
        lemma_block_pages(l);
    }

    /// The list of a level with its links.
    proof fn lemma_level_links(&self, l: int)
        requires
            self.wf_links(),
            0 <= l < BLOCK_LEVELS,
        ensures
            ({
                let s = self.lists@[l];
                &&& (s.len() == 0) == (self.levels@[l].head == 0)
                &&& s.len() > 0 ==> self.levels@[l].head == self.addr_of(s[0])
                &&& forall|i: int|
                    #![trigger self.nodes@[s[i]]]
                    0 <= i < s.len() ==> {
                        let n = self.nodes@[s[i]];
                        &&& n.valid()
                        &&& n.next == self.addr_of(next_of(s, i))
                        &&& n.prev == self.addr_of(prev_of(s, i))
                    }
            }),
    {
        reveal(links_level_wf);
        assert(self.wf_links_level(l));
    }

    /// Listed blocks of different positions start on different pages.
    proof fn lemma_distinct_starts(&self, l1: int, i1: int, l2: int, i2: int)
        requires
            self.wf_struct(),
            self.wf_blocks(),
            0 <= l1 < BLOCK_LEVELS,
            0 <= l2 < BLOCK_LEVELS,
            0 <= i1 < self.lists@[l1].len(),
            0 <= i2 < self.lists@[l2].len(),
            l1 != l2 || i1 != i2,
        ensures
            self.lists@[l1][i1] != self.lists@[l2][i2],
    {
        reveal(blocks_wf);
        lemma_block_pages(l1);
        lemma_block_pages(l2);
        assert(blocks_disjoint(l1, self.lists@[l1][i1], l2, self.lists@[l2][i2]));
    }

    /// The blocks stay aligned, inside the area and disjoint when a block
    /// disjoint from all listed blocks is appended to a list.
    proof fn lemma_blocks_push(a: &Self, b: &Self, l0: int, x: int)
        requires
            a.wf_struct(),
            a.wf_blocks(),
            b.wf_struct(),
            a.size == b.size,
            0 <= l0 < BLOCK_LEVELS,
            block_ok(a.num_pages(), l0, x),
            disjoint_from_lists(a.lists@, l0, x),
            b.lists@ == a.lists@.update(l0, a.lists@[l0].push(x)),
        ensures
            b.wf_blocks(),
    {
        reveal(blocks_wf);
        let s = a.lists@[l0];
        let npages = a.num_pages();
        assert forall|l: int, i: int|
            #![trigger b.lists@[l][i]]
            0 <= l < BLOCK_LEVELS && 0 <= i < b.lists@[l].len() implies block_ok(npages, l, b.lists@[l][i]) by {
            if l == l0 && i == s.len() {
            } else {
                assert(b.lists@[l][i] == a.lists@[l][i]);
            }
        }
        assert forall|l1: int, i1: int, l2: int, i2: int|
            #![trigger b.lists@[l1][i1], b.lists@[l2][i2]]
            0 <= l1 < BLOCK_LEVELS && 0 <= l2 < BLOCK_LEVELS && 0 <= i1 < b.lists@[l1].len() && 0 <= i2
                < b.lists@[l2].len() && (l1 != l2 || i1 != i2) implies blocks_disjoint(
                l1,
                b.lists@[l1][i1],
                l2,
                b.lists@[l2][i2],
            ) by {
            let new1 = l1 == l0 && i1 == s.len();
            let new2 = l2 == l0 && i2 == s.len();
            if new1 {
                assert(b.lists@[l2][i2] == a.lists@[l2][i2]);
                assert(blocks_disjoint(l0, x, l2, a.lists@[l2][i2]));
            } else if new2 {
                assert(b.lists@[l1][i1] == a.lists@[l1][i1]);
                assert(blocks_disjoint(l0, x, l1, a.lists@[l1][i1]));
            } else {
                assert(b.lists@[l1][i1] == a.lists@[l1][i1]);
                assert(b.lists@[l2][i2] == a.lists@[l2][i2]);
            }
        }
    }

    /// A level's links are unchanged when its list, head and the nodes of its
    /// blocks are unchanged.
    proof fn lemma_level_frame(a: &Self, b: &Self, l: int)
        requires
            0 <= l < BLOCK_LEVELS,
            a.wf_links_level(l),
            b.lists@[l] == a.lists@[l],
            b.levels@[l].head == a.levels@[l].head,
            b.base == a.base,
            forall|i: int|
                0 <= i < a.lists@[l].len() ==> #[trigger] b.nodes@[a.lists@[l][i]] == a.nodes@[a.lists@[l][i]],
        ensures
            b.wf_links_level(l),
    {
        reveal(links_level_wf);
        let s = a.lists@[l];
        assert forall|i: int| #![trigger a.nodes@[s[i]]] 0 <= i < s.len() implies b.nodes@[s[i]] == a.nodes@[s[i]] by {
        }
    }

    /// Establish a level's links from the facts about its head and nodes.
    proof fn lemma_level_intro(b: &Self, l: int)
        requires
            0 <= l < BLOCK_LEVELS,
            (b.lists@[l].len() == 0) == (b.levels@[l].head == 0),
            b.lists@[l].len() > 0 ==> b.levels@[l].head == b.addr_of(b.lists@[l][0]),
            forall|i: int|
                #![trigger b.nodes@[b.lists@[l][i]]]
                0 <= i < b.lists@[l].len() ==> {
                    let nd = b.nodes@[b.lists@[l][i]];
                    &&& nd.valid()
                    &&& nd.next == b.addr_of(next_of(b.lists@[l], i))
                    &&& nd.prev == b.addr_of(prev_of(b.lists@[l], i))
                },
        ensures
            b.wf_links_level(l),
    {
        reveal(links_level_wf);
    }

    /// The links stay consistent when a block is appended to the tail of a
    /// list and the head, the old tail and the new block get new nodes.
    #[verifier::spinoff_prover]
    proof fn lemma_links_push(a: &Self, b: &Self, l0: int, x: int)
        requires
            a.wf_struct(),
            a.wf_blocks(),
            a.wf_links(),
            b.wf_struct(),
            a.size == b.size,
            a.base == b.base,
            0 <= l0 < BLOCK_LEVELS,
            block_ok(a.num_pages(), l0, x),
            disjoint_from_lists(a.lists@, l0, x),
            b.lists@ == a.lists@.update(l0, a.lists@[l0].push(x)),
            forall|l: int| 0 <= l < BLOCK_LEVELS && l != l0 ==> #[trigger] b.levels@[l].head == a.levels@[l].head,
            b.levels@[l0].head == b.addr_of(b.lists@[l0][0]),
            ({
                let t = b.lists@[l0];
                let n = a.lists@[l0].len() as int;
                &&& b.nodes@[x].valid()
                &&& b.nodes@[x].next == b.addr_of(next_of(t, n))
                &&& b.nodes@[x].prev == b.addr_of(prev_of(t, n))
                &&& n > 0 ==> b.nodes@[t[0]].valid() && b.nodes@[t[0]].next == b.addr_of(next_of(t, 0))
                    && b.nodes@[t[0]].prev == b.addr_of(prev_of(t, 0))
                &&& n > 0 ==> b.nodes@[t[n - 1]].valid() && b.nodes@[t[n - 1]].next == b.addr_of(
                    next_of(t, n - 1),
                ) && b.nodes@[t[n - 1]].prev == b.addr_of(prev_of(t, n - 1))
            }),
            forall|y: int|
                0 <= y < a.num_pages() && y != x && (a.lists@[l0].len() == 0 || (y != a.lists@[l0][0] && y
                    != a.lists@[l0][a.lists@[l0].len() - 1])) ==> #[trigger] b.nodes@[y] == a.nodes@[y],
        ensures
            b.wf_links(),
    {
        let s = a.lists@[l0];
        let t = b.lists@[l0];
        let n = s.len() as int;
        lemma_block_pages(l0);
        assert forall|l: int| 0 <= l < BLOCK_LEVELS implies #[trigger] b.wf_links_level(l) by {
            if l != l0 {
                assert(a.wf_links_level(l));
                let sl = a.lists@[l];
                assert forall|i: int| 0 <= i < sl.len() implies #[trigger] b.nodes@[sl[i]] == a.nodes@[sl[i]] by {
                    a.lemma_listed(l, i);
                    lemma_block_pages(l);
                    assert(blocks_disjoint(l0, x, l, sl[i]));
                    if n > 0 {
                        a.lemma_distinct_starts(l0, 0, l, i);
                        a.lemma_distinct_starts(l0, n - 1, l, i);
                    }
                }
                Self::lemma_level_frame(a, b, l);
            } else {
                a.lemma_level_links(l0);
                assert forall|i: int| 0 <= i < t.len() implies #[trigger] b.nodes@[b.lists@[l0][i]] == b.nodes@[t[i]] && {
                    let nd = b.nodes@[t[i]];
                    &&& nd.valid()
                    &&& nd.next == b.addr_of(next_of(t, i))
                    &&& nd.prev == b.addr_of(prev_of(t, i))
                } by {
                    if i < n && i != 0 && i != n - 1 {
                        assert(t[i] == s[i]);
                        a.lemma_listed(l0, i);
                        assert(blocks_disjoint(l0, x, l0, s[i]));
                        a.lemma_distinct_starts(l0, 0, l0, i);
                        a.lemma_distinct_starts(l0, n - 1, l0, i);
                        assert(b.nodes@[t[i]] == a.nodes@[s[i]]);
                        assert(next_of(t, i) == next_of(s, i));
                        assert(prev_of(t, i) == prev_of(s, i));
                    }
                }
                Self::lemma_level_intro(b, l0);
            }
        }
    }

    /// Adds a block to the tail of a level's list of available blocks.
    #[verifier::rlimit(100)]
    #[verifier::spinoff_prover]
    fn add_to_list(&mut self, level: usize, block_addr: usize)
        requires
            old(self).wf(),
            level < BLOCK_LEVELS,
            block_addr >= old(self).base,
            (block_addr - old(self).base) % PAGE_SIZE as int == 0,
            block_ok(
                old(self).num_pages(),
                level as int,
                (block_addr - old(self).base) / PAGE_SIZE as int,
            ),
            disjoint_from_lists(
                old(self).lists@,
                level as int,
                (block_addr - old(self).base) / PAGE_SIZE as int,
            ),
        ensures
            final(self).wf(),
            final(self).base == old(self).base,
            final(self).size == old(self).size,
            final(self).virtual_base == old(self).virtual_base,
            final(self).lists@ == old(self).lists@.update(
                level as int,
                old(self).lists@[level as int].push((block_addr - old(self).base) / PAGE_SIZE as int),
            ),
    {
        let ghost x = (block_addr - self.base) / PAGE_SIZE as int;
        let ghost s = self.lists@[level as int];
        let ghost n = s.len() as int;
        let ghost old_self = *self;
        let ghost npages = self.num_pages();
        proof {
            lemma_block_pages(level as int);
            self.lemma_level_links(level as int);
            assert(!s.contains(x)) by {
                if s.contains(x) {
                    let i = choose|i: int| 0 <= i < s.len() && s[i] == x;
                    assert(blocks_disjoint(level as int, x, level as int, s[i]));
                }
            }
        }
        let head_addr = self.levels[level].head;

        // If the list is empty, initialize a new node that points only to
        // itself and make it the head. Otherwise, add the block to the tail.
        if head_addr == 0 {
            self.set_block_node(block_addr, BlockNode::new(block_addr, block_addr));
            self.set_head(level, block_addr);
        } else {
            proof {
                assert(s.len() > 0);
                self.lemma_listed(level as int, 0);
                self.lemma_listed(level as int, n - 1);
                if n > 1 {
                    old_self.lemma_distinct_starts(level as int, 0, level as int, n - 1);
                }
            }
            let head = self.get_block_node(head_addr);
            let prev_addr = head.prev;
            self.set_block_node(block_addr, BlockNode::new(head_addr, prev_addr));
            self.set_block_node(head_addr, BlockNode::new(head.next, block_addr));
            let prev = self.get_block_node(prev_addr);
            self.set_block_node(prev_addr, BlockNode::new(block_addr, prev.prev));
        }
        self.lists = Ghost(self.lists@.update(level as int, s.push(x)));
        proof {
            let t = s.push(x);
            assert(t[n] == x);
            if n > 0 {
                assert(t[0] == s[0]);
                assert(t[n - 1] == s[n - 1]);
            }
            Self::lemma_links_push(&old_self, self, level as int, x);
            Self::lemma_blocks_push(&old_self, self, level as int, x);
        }
        let ghost mid = *self;
        self.toggle_pair(level, block_addr);

        proof {
            let t = s.push(x);
            assert forall|y: int| #[trigger] t.contains(y) == (s.contains(y) != (y == x)) by {
                if y == x {
                    assert(t[n] == x);
                } else if t.contains(y) {
                    let j = choose|j: int| 0 <= j < t.len() && t[j] == y;
                    assert(s[j] == y);
                } else if s.contains(y) {
                    let j = choose|j: int| 0 <= j < s.len() && s[j] == y;
                    assert(t[j] == y);
                }
            }
            Self::lemma_flags_update(&old_self, self, level as int, x);
            assert(self.wf_links()) by {
                assert forall|l: int| 0 <= l < BLOCK_LEVELS implies #[trigger] self.wf_links_level(l) by {
                    reveal(links_level_wf);
                    assert(mid.wf_links_level(l));
                }
            }
        }
    }

    /// The blocks stay aligned, inside the area and disjoint when a block is
    /// removed from a list.
    proof fn lemma_blocks_remove(a: &Self, b: &Self, l0: int, i0: int)
        requires
            a.wf_struct(),
            a.wf_blocks(),
            b.wf_struct(),
            a.size == b.size,
            0 <= l0 < BLOCK_LEVELS,
            0 <= i0 < a.lists@[l0].len(),
            b.lists@ == a.lists@.update(l0, a.lists@[l0].remove(i0)),
        ensures
            b.wf_blocks(),
    {
        reveal(blocks_wf);
        let s = a.lists@[l0];
        let npages = a.num_pages();
        s.remove_ensures(i0);
        assert forall|l: int, i: int|
            #![trigger b.lists@[l][i]]
            0 <= l < BLOCK_LEVELS && 0 <= i < b.lists@[l].len() implies block_ok(npages, l, b.lists@[l][i]) by {
            if l == l0 && i >= i0 {
                assert(b.lists@[l][i] == a.lists@[l][i + 1]);
            } else {
                assert(b.lists@[l][i] == a.lists@[l][i]);
            }
        }
        assert forall|l1: int, i1: int, l2: int, i2: int|
            #![trigger b.lists@[l1][i1], b.lists@[l2][i2]]
            0 <= l1 < BLOCK_LEVELS && 0 <= l2 < BLOCK_LEVELS && 0 <= i1 < b.lists@[l1].len() && 0 <= i2
                < b.lists@[l2].len() && (l1 != l2 || i1 != i2) implies blocks_disjoint(
                l1,
                b.lists@[l1][i1],
                l2,
                b.lists@[l2][i2],
            ) by {
            let j1 = if l1 == l0 && i1 >= i0 { i1 + 1 } else { i1 };
            let j2 = if l2 == l0 && i2 >= i0 { i2 + 1 } else { i2 };
            assert(b.lists@[l1][i1] == a.lists@[l1][j1]);
            assert(b.lists@[l2][i2] == a.lists@[l2][j2]);
            assert(a.lists@[l1][j1] == a.lists@[l1][j1]);
            assert(a.lists@[l2][j2] == a.lists@[l2][j2]);
        }
    }

    /// The links of the other levels are untouched when only nodes of blocks
    /// listed at level `l0` change.
    proof fn lemma_links_other(a: &Self, b: &Self, l0: int, j1: int, j2: int)
        requires
            a.wf_struct(),
            a.wf_blocks(),
            a.wf_links(),
            b.wf_struct(),
            a.size == b.size,
            a.base == b.base,
            0 <= l0 < BLOCK_LEVELS,
            0 <= j1 < a.lists@[l0].len(),
            0 <= j2 < a.lists@[l0].len(),
            forall|l: int| 0 <= l < BLOCK_LEVELS && l != l0 ==> #[trigger] b.lists@[l] == a.lists@[l],
            forall|l: int| 0 <= l < BLOCK_LEVELS && l != l0 ==> #[trigger] b.levels@[l].head == a.levels@[l].head,
            forall|y: int|
                0 <= y < a.num_pages() && y != a.lists@[l0][j1] && y != a.lists@[l0][j2]
                    ==> #[trigger] b.nodes@[y] == a.nodes@[y],
        ensures
            forall|l: int| 0 <= l < BLOCK_LEVELS && l != l0 ==> #[trigger] b.wf_links_level(l),
    {
        assert forall|l: int| 0 <= l < BLOCK_LEVELS && l != l0 implies #[trigger] b.wf_links_level(l) by {
            assert(a.wf_links_level(l));
            let sl = a.lists@[l];
            assert forall|i: int| 0 <= i < sl.len() implies #[trigger] b.nodes@[sl[i]] == a.nodes@[sl[i]] by {
                a.lemma_listed(l, i);
                a.lemma_distinct_starts(l0, j1, l, i);
                a.lemma_distinct_starts(l0, j2, l, i);
            }
            Self::lemma_level_frame(a, b, l);
        }
    }

    /// The links of a list stay consistent when a block is unlinked from it
    /// (the list holding at least two blocks) and its neighbours get new
    /// nodes.
    #[verifier::spinoff_prover]
    proof fn lemma_links_remove(a: &Self, b: &Self, l0: int, i0: int, kp: int, kn: int)
        requires
            a.wf_struct(),
            a.wf_blocks(),
            a.wf_links(),
            b.wf_struct(),
            a.size == b.size,
            a.base == b.base,
            0 <= l0 < BLOCK_LEVELS,
            a.lists@[l0].len() >= 2,
            0 <= i0 < a.lists@[l0].len(),
            b.lists@[l0] == a.lists@[l0].remove(i0),
            kp == (if i0 > 0 { i0 - 1 } else { a.lists@[l0].len() - 2 }),
            kn == (if i0 < a.lists@[l0].len() - 1 { i0 } else { 0 }),
            b.levels@[l0].head == b.addr_of(b.lists@[l0][0]),
            ({
                let t = b.lists@[l0];
                &&& b.nodes@[t[kp]].valid() && b.nodes@[t[kp]].next == b.addr_of(next_of(t, kp))
                    && b.nodes@[t[kp]].prev == b.addr_of(prev_of(t, kp))
                &&& b.nodes@[t[kn]].valid() && b.nodes@[t[kn]].next == b.addr_of(next_of(t, kn))
                    && b.nodes@[t[kn]].prev == b.addr_of(prev_of(t, kn))
            }),
            forall|y: int|
                0 <= y < a.num_pages() && y != b.lists@[l0][kp] && y != b.lists@[l0][kn]
                    ==> #[trigger] b.nodes@[y] == a.nodes@[y],
        ensures
            b.wf_links_level(l0),
    {
        let s = a.lists@[l0];
        let t = b.lists@[l0];
        let n = s.len() as int;
        s.remove_ensures(i0);
        a.lemma_level_links(l0);
        let jp = if kp >= i0 { kp + 1 } else { kp };
        let jn = if kn >= i0 { kn + 1 } else { kn };
        assert(t[kp] == s[jp]);
        assert(t[kn] == s[jn]);
        assert forall|i: int| 0 <= i < t.len() implies #[trigger] b.nodes@[b.lists@[l0][i]] == b.nodes@[t[i]] && {
                    let nd = b.nodes@[t[i]];
                    &&& nd.valid()
                    &&& nd.next == b.addr_of(next_of(t, i))
                    &&& nd.prev == b.addr_of(prev_of(t, i))
                } by {
            if i != kp && i != kn {
                let j = if i >= i0 { i + 1 } else { i };
                assert(t[i] == s[j]);
                a.lemma_listed(l0, j);
                a.lemma_distinct_starts(l0, jp, l0, j);
                a.lemma_distinct_starts(l0, jn, l0, j);
                assert(b.nodes@[t[i]] == a.nodes@[s[j]]);
                assert(next_of(t, i) == next_of(s, j));
                assert(prev_of(t, i) == prev_of(s, j));
            }
        }
        let j0 = if i0 == 0 { 1 } else { 0 };
        assert(t[0] == s[j0]);
        a.lemma_listed(l0, j0);
        Self::lemma_level_intro(b, l0);
    }

    /// Membership after removing the only occurrence of `x` at `i0`.
    proof fn lemma_remove_contains(s: Seq<int>, i0: int, x: int)
        requires
            0 <= i0 < s.len(),
            s[i0] == x,
            forall|j: int| 0 <= j < s.len() && j != i0 ==> #[trigger] s[j] != x,
        ensures
            forall|y: int| #[trigger] s.remove(i0).contains(y) == (s.contains(y) != (y == x)),
            s.remove_value(x) == s.remove(i0),
    {
        let t = s.remove(i0);
        s.remove_ensures(i0);
        assert forall|y: int| #[trigger] t.contains(y) == (s.contains(y) != (y == x)) by {
            if t.contains(y) {
                let j = choose|j: int| 0 <= j < t.len() && t[j] == y;
                if j < i0 {
                    assert(s[j] == y);
                } else {
                    assert(s[j + 1] == y);
                }
            } else if s.contains(y) && y != x {
                let j = choose|j: int| 0 <= j < s.len() && s[j] == y;
                if j < i0 {
                    assert(t[j] == y);
                } else {
                    assert(t[j - 1] == y);
                }
            }
        }
        s.index_of_first_ensures(x);
        assert(s.index_of_first(x) == Some(i0));
    }

    /// The effect of unlinking the block at position `i0` of a list of at
    /// least two blocks: the neighbours are relinked and the head moves on
    /// when the head is removed.
    #[verifier::rlimit(100)]
    #[verifier::spinoff_prover]
    proof fn lemma_unlink(a: &Self, b: &Self, l0: int, i0: int)
        requires
            a.wf_struct(),
            a.wf_blocks(),
            a.wf_links(),
            b.wf_struct(),
            a.size == b.size,
            a.base == b.base,
            0 <= l0 < BLOCK_LEVELS,
            0 <= i0 < a.lists@[l0].len(),
            a.lists@[l0].len() >= 2,
            b.lists@ == a.lists@.update(l0, a.lists@[l0].remove(i0)),
            ({
                let s = a.lists@[l0];
                let n = s.len() as int;
                let pp = s[if i0 > 0 { i0 - 1 } else { n - 1 }];
                let pn = s[if i0 < n - 1 { i0 + 1 } else { 0 }];
                let nodes1 = a.nodes@.update(pp, BlockNode {
                    next: a.addr_of(pn) as usize,
                    prev: a.nodes@[pp].prev,
                    checksum: node_checksum(a.addr_of(pn) as usize, a.nodes@[pp].prev),
                });
                &&& b.nodes@ == nodes1.update(pn, BlockNode {
                    next: nodes1[pn].next,
                    prev: a.addr_of(pp) as usize,
                    checksum: node_checksum(nodes1[pn].next, a.addr_of(pp) as usize),
                })
                &&& b.levels@[l0].head == (if i0 == 0 { a.addr_of(pn) as usize } else { a.levels@[l0].head })
            }),
            forall|l: int| 0 <= l < BLOCK_LEVELS && l != l0 ==> #[trigger] b.levels@[l].head == a.levels@[l].head,
        ensures
            b.wf_blocks(),
            b.wf_links(),
    {
        let s = a.lists@[l0];
        let n = s.len() as int;
        let t = s.remove(i0);
        let npages = a.num_pages();
        let kp = if i0 > 0 { i0 - 1 } else { n - 2 };
        let kn = if i0 < n - 1 { i0 } else { 0 };
        let jp = if i0 > 0 { i0 - 1 } else { n - 1 };
        let jn = if i0 < n - 1 { i0 + 1 } else { 0 };
        lemma_block_pages(l0);
        a.lemma_level_links(l0);
        s.remove_ensures(i0);
        assert(t[kp] == s[jp]);
        assert(t[kn] == s[jn]);
        a.lemma_listed(l0, jp);
        a.lemma_listed(l0, jn);
        a.lemma_listed(l0, i0);
        // Head of the new list.
        if i0 == 0 {
            assert(t[0] == s[1]);
        } else {
            assert(t[0] == s[0]);
        }
        assert(b.levels@[l0].head == b.addr_of(t[0]));
        // Neighbour facts in terms of the new list.
        assert(next_of(t, kp) == t[kn]);
        assert(prev_of(t, kn) == t[kp]);
        if n == 2 {
            assert(kp == kn);
            assert(jp == jn);
        } else {
            a.lemma_distinct_starts(l0, jp, l0, jn);
            assert(prev_of(t, kp) == prev_of(s, jp));
            assert(next_of(t, kn) == next_of(s, jn));
        }
        Self::lemma_links_remove(a, b, l0, i0, kp, kn);
        Self::lemma_links_other(a, b, l0, jp, jn);
        Self::lemma_blocks_remove(a, b, l0, i0);
    }

    /// Unlink the block at position `i0` from a list of at least two blocks,
    /// updating the links of its neighbours and the list head.
    #[verifier::spinoff_prover]
    fn unlink_block(&mut self, level: usize, block_addr: usize, Ghost(i0): Ghost<int>)
        requires
            old(self).wf_struct(),
            old(self).wf_blocks(),
            old(self).wf_links(),
            level < BLOCK_LEVELS,
            block_addr >= old(self).base,
            (block_addr - old(self).base) % PAGE_SIZE as int == 0,
            0 <= i0 < old(self).lists@[level as int].len(),
            old(self).lists@[level as int].len() >= 2,
            old(self).lists@[level as int][i0] == (block_addr - old(self).base) / PAGE_SIZE as int,
        ensures
            final(self).wf_struct(),
            final(self).wf_blocks(),
            final(self).wf_links(),
            final(self).base == old(self).base,
            final(self).size == old(self).size,
            final(self).virtual_base == old(self).virtual_base,
            final(self).flags@ == old(self).flags@,
            final(self).lists@ == old(self).lists@.update(
                level as int,
                old(self).lists@[level as int].remove(i0),
            ),
    {
        let ghost s = self.lists@[level as int];
        let ghost n = s.len() as int;
        let ghost old_self = *self;
        let ghost npages = self.num_pages();
        let ghost jp = if i0 > 0 { i0 - 1 } else { n - 1 };
        let ghost jn = if i0 < n - 1 { i0 + 1 } else { 0 };
        proof {
            lemma_block_pages(level as int);
            self.lemma_level_links(level as int);
            self.lemma_listed(level as int, i0);
            self.lemma_listed(level as int, jp);
            self.lemma_listed(level as int, jn);
        }
        let head_addr = self.levels[level].head;
        let block = self.get_block_node(block_addr);
        let prev = self.get_block_node(block.prev);
        self.set_block_node(block.prev, BlockNode::new(block.next, prev.prev));
        let next = self.get_block_node(block.next);
        self.set_block_node(block.next, BlockNode::new(next.next, block.prev));
        if block_addr == head_addr {
            self.set_head(level, block.next);
        }
        self.lists = Ghost(self.lists@.update(level as int, s.remove(i0)));
        proof {
            if i0 != 0 {
                old_self.lemma_distinct_starts(level as int, 0, level as int, i0);
            }
            Self::lemma_unlink(&old_self, self, level as int, i0);
        }
    }

    /// Removes a specific block from a level's free list.
    #[verifier::spinoff_prover]
    fn remove_from_list(&mut self, level: usize, block_addr: usize)
        requires
            old(self).wf(),
            level < BLOCK_LEVELS,
            block_addr >= old(self).base,
            (block_addr - old(self).base) % PAGE_SIZE as int == 0,
            old(self).lists@[level as int].contains((block_addr - old(self).base) / PAGE_SIZE as int),
        ensures
            final(self).wf(),
            final(self).base == old(self).base,
            final(self).size == old(self).size,
            final(self).virtual_base == old(self).virtual_base,
            final(self).lists@ == old(self).lists@.update(
                level as int,
                old(self).lists@[level as int].remove_value((block_addr - old(self).base) / PAGE_SIZE as int),
            ),
    {
        let ghost x = (block_addr - self.base) / PAGE_SIZE as int;
        let ghost s = self.lists@[level as int];
        let ghost n = s.len() as int;
        let ghost old_self = *self;
        let ghost npages = self.num_pages();
        let ghost i0 = s.index_of(x);
        let ghost t = s.remove(i0);
        proof {
            lemma_block_pages(level as int);
            self.lemma_level_links(level as int);
            assert(0 <= i0 < n && s[i0] == x);
            self.lemma_listed(level as int, i0);
            assert forall|j: int| 0 <= j < n && j != i0 implies #[trigger] s[j] != x by {
                self.lemma_distinct_starts(level as int, j, level as int, i0);
            }
            Self::lemma_remove_contains(s, i0, x);
        }
        let head_addr = self.levels[level].head;
        let block = self.get_block_node(block_addr);

        // If the block is the head and points to itself, it is the only block
        // on the list: empty the list. Otherwise unlink it from its neighbours.
        if block_addr == head_addr && block.next == head_addr {
            proof {
                if n > 1 {
                    assert(s[0] == x);
                    self.lemma_distinct_starts(level as int, 0, level as int, 1);
                }
                s.remove_ensures(i0);
            }
            self.set_head(level, 0);
            self.lists = Ghost(self.lists@.update(level as int, t));
            proof {
                assert(self.wf_links_level(level as int)) by {
                    reveal(links_level_wf);
                }
                Self::lemma_links_other(&old_self, self, level as int, 0, 0);
                Self::lemma_blocks_remove(&old_self, self, level as int, i0);
            }
        } else {
            proof {
                if n == 1 {
                    assert(s[0] == x);
                }
            }
            self.unlink_block(level, block_addr, Ghost(i0));
        }
        let ghost mid = *self;
        self.toggle_pair(level, block_addr);
        proof {
            Self::lemma_flags_update(&old_self, self, level as int, x);
            assert(self.wf_links()) by {
                assert forall|l: int| 0 <= l < BLOCK_LEVELS implies #[trigger] self.wf_links_level(l) by {
                    reveal(links_level_wf);
                    assert(mid.wf_links_level(l));
                }
            }
        }
    }

    /// Pop the head of a level's free list.
    ///
    /// Returns the address of the block that was at the head of the list.
    fn pop_from_list(&mut self, level: usize) -> (r: usize)
        requires
            old(self).wf(),
            level < BLOCK_LEVELS,
            old(self).lists@[level as int].len() > 0,
        ensures
            final(self).wf(),
            final(self).base == old(self).base,
            final(self).size == old(self).size,
            final(self).virtual_base == old(self).virtual_base,
            r == old(self).addr_of(old(self).lists@[level as int][0]),
            final(self).lists@ == old(self).lists@.update(
                level as int,
                old(self).lists@[level as int].drop_first(),
            ),
    {
        let ghost s = self.lists@[level as int];
        proof {
            self.lemma_level_links(level as int);
            self.lemma_listed(level as int, 0);
            assert(s.contains(s[0]));
        }
        let head_addr = self.levels[level].head;
        self.remove_from_list(level, head_addr);
        proof {
            s.index_of_first_ensures(s[0]);
            assert(s.remove_value(s[0]) =~= s.drop_first());
        }
        head_addr
    }

    /// Split a free block until it is the required size.
    ///
    /// Removes the first available block at `level`, then repeatedly splits
    /// it in half, adding the upper half to the tail of the list one level
    /// down, until reaching `min_level`. Returns the address of the block
    /// removed from `level`.
    fn split_free_block(&mut self, level: usize, min_level: usize) -> (r: usize)
        requires
            old(self).wf(),
            min_level <= level < BLOCK_LEVELS,
            old(self).lists@[level as int].len() > 0,
        ensures
            final(self).wf(),
            final(self).base == old(self).base,
            final(self).size == old(self).size,
            final(self).virtual_base == old(self).virtual_base,
            r == old(self).addr_of(old(self).lists@[level as int][0]),
            final(self).lists@ == split_lists(
                old(self).lists@,
                level as int,
                min_level as int,
                old(self).lists@[level as int][0],
            ),
            disjoint_from_lists(final(self).lists@, min_level as int, old(self).lists@[level as int][0]),
    {
        let ghost old_lists = self.lists@;
        let ghost p = self.lists@[level as int][0];
        let ghost npages = self.num_pages();
        proof {
            self.lemma_listed(level as int, 0);
            lemma_block_pages(level as int);
            reveal(blocks_wf);
            // The popped block is disjoint from every other listed block.
            assert forall|l2: int, i2: int|
                #![trigger old_lists[l2][i2]]
                0 <= l2 < BLOCK_LEVELS && 0 <= i2 < old_lists[l2].len() && (l2 != level || i2 != 0)
                    implies blocks_disjoint(level as int, p, l2, old_lists[l2][i2]) by {
                assert(old_lists[level as int][0] == p);
            }
        }
        let block_addr = self.pop_from_list(level);
        let mut l = level;
        proof {
            assert(self.lists@ =~= split_lists(old_lists, level as int, l as int, p)) by {
                assert forall|k: int| 0 <= k < BLOCK_LEVELS implies #[trigger] self.lists@[k] == split_lists(old_lists, level as int, l as int, p)[k] by {
                    lemma_split_lists_index(old_lists, level as int, l as int, p, k);
                }
            }
        }
        while l > min_level
            invariant
                self.wf(),
                min_level <= l <= level < BLOCK_LEVELS,
                self.base == old(self).base,
                self.size == old(self).size,
                self.virtual_base == old(self).virtual_base,
                npages == self.num_pages(),
                block_ok(npages, level as int, p),
                block_addr == self.addr_of(p),
                self.lists@ == split_lists(old_lists, level as int, l as int, p),
                forall|l2: int, i2: int|
                    #![trigger old_lists[l2][i2]]
                    0 <= l2 < BLOCK_LEVELS && 0 <= i2 < old_lists[l2].len() && (l2 != level || i2 != 0)
                        ==> blocks_disjoint(level as int, p, l2, old_lists[l2][i2]),
                old_lists.len() == BLOCK_LEVELS,
                old_lists[level as int].len() > 0,
                old_lists[level as int][0] == p,
            decreases l,
        {
            l -= 1;
            let ghost h = p + block_pages(l as int);
            proof {
                lemma_block_pages(l as int);
                lemma_block_pages_grow(l as int, level as int);
                lemma_align_down_levels(p, l as int, level as int);
                lemma_shl(PAGE_SIZE, l);
                // The new half is disjoint from everything on the lists.
                let lists = self.lists@;
                assert forall|l2: int, i2: int|
                    #![trigger lists[l2][i2]]
                    0 <= l2 < BLOCK_LEVELS && 0 <= i2 < lists[l2].len() implies blocks_disjoint(
                    l as int,
                    h,
                    l2,
                    lists[l2][i2],
                ) by {
                    lemma_split_lists_index(old_lists, level as int, (l + 1) as int, p, l2);
                    assert(lists[l2] == split_lists(old_lists, level as int, (l + 1) as int, p)[l2]);
                    if l2 == level {
                        assert(lists[l2] == old_lists[l2].drop_first());
                        assert(lists[l2][i2] == old_lists[l2][i2 + 1]);
                    } else if l < l2 < level && i2 == old_lists[l2].len() {
                        assert(lists[l2][i2] == p + block_pages(l2));
                        lemma_block_pages_grow(l as int, l2);
                    } else {
                        assert(lists[l2][i2] == old_lists[l2][i2]);
                    }
                }
                assert(h * 4096 == p * 4096 + 4096 * block_pages(l as int)) by (nonlinear_arith)
                    requires h == p + block_pages(l as int);
            }
            let buddy_addr = block_addr + (PAGE_SIZE << l);
            self.add_to_list(l, buddy_addr);
            proof {
                assert forall|k: int| 0 <= k < BLOCK_LEVELS implies #[trigger] self.lists@[k] == split_lists(old_lists, level as int, l as int, p)[k] by {
                    lemma_split_lists_index(old_lists, level as int, l as int, p, k);
                    lemma_split_lists_index(old_lists, level as int, (l + 1) as int, p, k);
                }
                assert(self.lists@ =~= split_lists(old_lists, level as int, l as int, p));
            }
        }
        proof {
            // The returned block is disjoint from everything on the lists.
            let lists = self.lists@;
            assert forall|l2: int, i2: int|
                #![trigger lists[l2][i2]]
                0 <= l2 < BLOCK_LEVELS && 0 <= i2 < lists[l2].len() implies blocks_disjoint(
                min_level as int,
                p,
                l2,
                lists[l2][i2],
            ) by {
                lemma_split_lists_index(old_lists, level as int, min_level as int, p, l2);
                assert(lists[l2] == split_lists(old_lists, level as int, min_level as int, p)[l2]);
                lemma_block_pages(min_level as int);
                if min_level < level {
                    lemma_block_pages_grow(min_level as int, level as int);
                }
                if l2 == level {
                    assert(lists[l2][i2] == old_lists[l2][i2 + 1]);
                } else if min_level <= l2 < level && i2 == old_lists[l2].len() {
                    assert(lists[l2][i2] == p + block_pages(l2));
                    lemma_block_pages(l2);
                    if min_level < l2 {
                        lemma_block_pages_grow(min_level as int, l2);
                    }
                } else {
                    assert(lists[l2][i2] == old_lists[l2][i2]);
                }
            }
        }
        block_addr
    }

    /// Attempts to allocate a contiguous block of pages.
    ///
    /// If `pages` is not a power of 2, the block returned is the smallest
    /// power of 2 pages larger than the requested number of pages. The block
    /// is taken from the head of the lowest non-empty list at or above that
    /// size and split down as necessary.
    ///
    /// Returns the base physical address of the block and the actual number
    /// of pages allocated, or None if no block of the requested size is
    /// available.
    pub fn allocate(&mut self, pages: usize) -> (r: Option<(usize, usize)>)
        requires
            old(self).wf(),
        ensures
            final(self).wf(),
            final(self).area_base() == old(self).area_base(),
            final(self).num_pages() == old(self).num_pages(),
            final(self).kernel_base() == old(self).kernel_base(),
            ({
                let m = alloc_level(pages);
                let top = first_free_level(old(self).free_lists(), m);
                if pages == 0 || top >= BLOCK_LEVELS {
                    &&& r is None
                    &&& *final(self) == *old(self)
                } else {
                    let p = old(self).free_lists()[top][0];
                    &&& r == Some((old(self).phys_of(p) as usize, pow2(m as nat) as usize))
                    &&& old(self).phys_of(p) % (pow2(m as nat) * PAGE_SIZE) == 0
                    &&& final(self).free_lists() == split_lists(old(self).free_lists(), top, m, p)
                    &&& block_ok(old(self).num_pages(), m, p)
                    &&& disjoint_from_lists(final(self).free_lists(), m, p)
                }
            }),
    {
        if pages == 0 {
            return None;
        }

        // Calculate the level with the minimum block size.
        let min_level = ceil_log2(pages as u64) as usize;
        let ghost m = alloc_level(pages);
        let ghost lists = self.lists@;
        let mut level = min_level;

        while level < BLOCK_LEVELS
            invariant
                self.wf(),
                *self == *old(self),
                lists == self.lists@,
                min_level == m,
                m == alloc_level(pages),
                pages > 0,
                m <= level,
                first_free_level(lists, m) == first_free_level(lists, level as int),
            decreases BLOCK_LEVELS - level,
        {
            proof {
                self.lemma_level_links(level as int);
            }
            if self.levels[level].head == 0 {
                proof {
                    assert(first_free_level(lists, level as int) == first_free_level(lists, level + 1));
                }
                level += 1;
                continue;
            }
            let virtual_base = self.virtual_base;
            let ghost p = self.lists@[level as int][0];
            proof {
                self.lemma_listed(level as int, 0);
                assert(first_free_level(lists, level as int) == level);
            }
            let block = self.split_free_block(level, min_level);
            proof {
                lemma_block_pages(min_level as int);
                lemma_shl(1, min_level);
                lemma_block_pages(level as int);
                if min_level < level {
                    lemma_block_pages_grow(min_level as int, level as int);
                }
                lemma_align_down_levels(p, min_level as int, level as int);
            }
            let block_pages_allocated = 1usize << min_level;
            proof {
                assert(block_pages_allocated == pow2(m as nat));
                lemma_block_addr_aligned(self.base - self.virtual_base, p, m);
            }
            return Some((block - virtual_base, block_pages_allocated));
        }
        None
    }

    /// The flag of a block's pair tells whether its buddy is free when the
    /// block itself is not on the list.
    proof fn lemma_flag_is_buddy(&self, l: int, p: int)
        requires
            self.wf_struct(),
            self.wf_flags(),
            0 <= l < BLOCK_LEVELS,
            block_ok(self.num_pages(), l, p),
            !self.lists@[l].contains(p),
        ensures
            self.flag(l, pair_of(l, p)) == self.lists@[l].contains(buddy_of(l, p)),
            buddy_of(l, p) >= 0,
            buddy_of(l, p) % block_pages(l) == 0,
            pair_of(l, buddy_of(l, p)) == pair_of(l, p),
    {
        reveal(flags_wf);
        let bp = block_pages(l);
        lemma_block_pages(l);
        lemma_pair(bp, p);
        lemma_pair_bound(self.num_pages() as nat, l, p);
        let q = pair_of(l, p);
        lemma_pair_members(bp, q);
        assert(self.flag(l, q) == flag_at(self.num_pages(), self.flags@, l, q));
    }

    /// The merged block of a block and its free buddy is disjoint from the
    /// remaining listed blocks.
    proof fn lemma_merge_disjoint(lists: Seq<Seq<int>>, l: int, p: int, b: int, i0: int)
        requires
            0 <= l < BLOCK_LEVELS - 1,
            lists.len() == BLOCK_LEVELS,
            b == buddy_of(l, p),
            p >= 0,
            p % block_pages(l) == 0,
            0 <= i0 < lists[l].len(),
            lists[l][i0] == b,
            disjoint_from_lists(lists, l, p),
            lists_disjoint(lists),
        ensures
            disjoint_from_lists(
                lists.update(l, lists[l].remove(i0)),
                l + 1,
                if p < b { p } else { b },
            ),
    {
        let bp = block_pages(l);
        lemma_block_pages(l);
        let m = if p < b { p } else { b };
        let t = lists.update(l, lists[l].remove(i0));
        lists[l].remove_ensures(i0);
        assert forall|l2: int, i2: int|
            #![trigger t[l2][i2]]
            0 <= l2 < BLOCK_LEVELS && 0 <= i2 < t[l2].len() implies blocks_disjoint(l + 1, m, l2, t[l2][i2]) by {
            let j = if l2 == l && i2 >= i0 { i2 + 1 } else { i2 };
            lemma_block_pages(l2);
            lemma_block_pages(l + 1);
            assert(t[l2][i2] == lists[l2][j]);
            assert(blocks_disjoint(l, p, l2, lists[l2][j]));
            assert(lists[l][i0] == b);
            assert(blocks_disjoint(l, lists[l][i0], l2, lists[l2][j]));
        }
    }

    /// Frees a block of memory.
    ///
    /// `base` is the physical base address of the block and `pages` the number
    /// of pages in it: a power of 2 no larger than the largest block size. The
    /// block must lie in the served area, start at a physical address that is
    /// a multiple of its size, and not overlap any free block (the allocator does not
    /// protect against double-free). A base address of 0 or a page count of
    /// 0 is ignored.
    ///
    /// While the block's buddy is free, the buddy is taken off its list and
    /// the two merge into a block of the next level; the final block goes to
    /// the tail of its level's list.
    pub fn free(&mut self, base: usize, pages: usize)
        requires
            old(self).wf(),
            base != 0 && pages != 0 ==> {
                &&& is_power_of_2(pages)
                &&& msb(pages as u64) < BLOCK_LEVELS
                &&& base + old(self).kernel_base() >= old(self).area_base()
                &&& (base + old(self).kernel_base() - old(self).area_base()) % PAGE_SIZE as int == 0
                &&& block_ok(
                    old(self).num_pages(),
                    msb(pages as u64) as int,
                    (base + old(self).kernel_base() - old(self).area_base()) / PAGE_SIZE as int,
                )
                &&& disjoint_from_lists(
                    old(self).free_lists(),
                    msb(pages as u64) as int,
                    (base + old(self).kernel_base() - old(self).area_base()) / PAGE_SIZE as int,
                )
            },
        ensures
            final(self).wf(),
            final(self).area_base() == old(self).area_base(),
            final(self).num_pages() == old(self).num_pages(),
            final(self).kernel_base() == old(self).kernel_base(),
            final(self).free_lists() == (if base == 0 || pages == 0 {
                old(self).free_lists()
            } else {
                coalesce(
                    old(self).free_lists(),
                    msb(pages as u64) as int,
                    (base + old(self).kernel_base() - old(self).area_base()) / PAGE_SIZE as int,
                )
            }),
            base == 0 || pages == 0 ==> *final(self) == *old(self),
    {
        if (base == 0) || (pages == 0) {
            return;
        }

        let min_level = floor_log2(pages as u64) as usize;
        let virtual_base = self.virtual_base;
        let mut base_addr = base + virtual_base;
        let mut level = min_level;
        let ghost target = coalesce(self.lists@, min_level as int, (base_addr - self.base) / PAGE_SIZE as int);

        while level < BLOCK_LEVELS
            invariant
                self.wf(),
                self.base == old(self).base,
                self.size == old(self).size,
                self.virtual_base == old(self).virtual_base,
                level < BLOCK_LEVELS,
                base_addr >= self.base,
                (base_addr - self.base) % PAGE_SIZE as int == 0,
                block_ok(self.num_pages(), level as int, (base_addr - self.base) / PAGE_SIZE as int),
                disjoint_from_lists(self.lists@, level as int, (base_addr - self.base) / PAGE_SIZE as int),
                coalesce(self.lists@, level as int, (base_addr - self.base) / PAGE_SIZE as int) == target,
                target == coalesce(
                    old(self).free_lists(),
                    msb(pages as u64) as int,
                    (base + old(self).kernel_base() - old(self).area_base()) / PAGE_SIZE as int,
                ),
                base != 0 && pages != 0,
            decreases BLOCK_LEVELS - level,
        {
            let ghost cur = (base_addr - self.base) / PAGE_SIZE as int;
            let ghost bp = block_pages(level as int);
            proof {
                lemma_block_pages(level as int);
                reveal(blocks_wf);
                assert(!self.lists@[level as int].contains(cur)) by {
                    if self.lists@[level as int].contains(cur) {
                        let i = choose|i: int| 0 <= i < self.lists@[level as int].len() && self.lists@[level as int][i] == cur;
                        assert(blocks_disjoint(level as int, cur, level as int, self.lists@[level as int][i]));
                    }
                }
                self.lemma_flag_is_buddy(level as int, cur);
            }
            let (index, bit_idx) = self.get_flag_index_and_bit(base_addr, level);

            // The allocator does not protect against double-free, so the
            // assumption here is that the buddy block is in use if the bit is
            // zero and the two cannot coalesce. The top level has no buddies.
            let word = self.flags[index];
            proof {
                lemma_toggle_bit(word, bit_idx as u64, bit_idx as u64);
            }
            if level == BLOCK_LEVELS - 1 || word & (1u64 << (bit_idx as u64)) == 0 {
                proof {
                    let q = pair_of(level as int, cur);
                    assert(self.flag(level as int, q) == ((word >> (bit_idx as u64)) & 1u64 == 1u64));
                    assert(level == BLOCK_LEVELS - 1 || !self.lists@[level as int].contains(buddy_of(level as int, cur)));
                    assert(coalesce(self.lists@, level as int, cur) == self.lists@.update(
                        level as int,
                        self.lists@[level as int].push(cur),
                    ));
                }
                self.add_to_list(level, base_addr);
                return;
            }

            // The buddy is free: remove it from the list at this level, then
            // continue with the merged block at the next level.
            proof {
                lemma_word_ops((base_addr - self.base) as usize);
                vstd::bits::lemma_usize_shr_is_div(((base_addr - self.base) as usize) >> PAGE_SHIFT, level);
                lemma_shl(PAGE_SIZE, level);
                lemma_word_ops((((base_addr - self.base) as usize) >> PAGE_SHIFT) >> level);
                lemma_pair(bp, cur);
            }
            let block_size = PAGE_SIZE << level;
            let block_num = ((base_addr - self.base) >> PAGE_SHIFT) >> level;
            let ghost b = buddy_of(level as int, cur);
            proof {
                assert(self.lists@[level as int].contains(b));
                let i = choose|i: int| 0 <= i < self.lists@[level as int].len() && self.lists@[level as int][i] == b;
                self.lemma_listed(level as int, i);
                assert(b * 4096 == cur * 4096 + 4096 * bp || b * 4096 == cur * 4096 - 4096 * bp) by (nonlinear_arith)
                    requires b == cur + bp || b == cur - bp;
            }
            let buddy_addr = if block_num & 1 == 0 {
                base_addr + block_size
            } else {
                base_addr - block_size
            };
            let ghost before = self.lists@;
            proof {
                let i = choose|i: int| 0 <= i < before[level as int].len() && before[level as int][i] == b;
                Self::lemma_merge_disjoint(before, level as int, cur, b, i);
                // The buddy occurs once on its list.
                assert forall|j: int| 0 <= j < before[level as int].len() && j != i implies #[trigger] before[level as int][j] != b by {
                    self.lemma_distinct_starts(level as int, j, level as int, i);
                }
                Self::lemma_remove_contains(before[level as int], i, b);
                let m = if cur < b { cur } else { b };
                lemma_block_pages(level as int + 1);
                lemma_pair(bp, cur);
                // The merged block is aligned on the next level's size.
                assert(m == 2 * pair_of(level as int, cur) * bp);
                assert(m == pair_of(level as int, cur) * block_pages(level as int + 1)) by (nonlinear_arith)
                    requires m == 2 * pair_of(level as int, cur) * bp, block_pages(level as int + 1) == 2 * bp;
                vstd::arithmetic::div_mod::lemma_mod_multiples_basic(pair_of(level as int, cur), block_pages(level as int + 1));
                assert(pair_of(level as int, cur) >= 0);
            }
            proof {
                let q = pair_of(level as int, cur);
                assert(self.flag(level as int, q) == ((word >> (bit_idx as u64)) & 1u64 == 1u64));
                assert(self.lists@[level as int].contains(b));
                assert((buddy_addr - self.base) / PAGE_SIZE as int == b);
                assert(coalesce(before, level as int, cur) == coalesce(
                    before.update(level as int, before[level as int].remove_value(b)),
                    level + 1,
                    if cur < b { cur } else { b },
                ));
            }
            self.remove_from_list(level, buddy_addr);
            base_addr = if base_addr < buddy_addr { base_addr } else { buddy_addr };
            level += 1;
            proof {
                let m = (base_addr - self.base) / PAGE_SIZE as int;
                assert(m == (if cur < b { cur } else { b }));
            }
        }
    }

    /// The flags of an allocator with empty lists and all-zero flag words are
    /// consistent, and so are its links when all heads are 0.
    proof fn lemma_empty_wf(&self)
        requires
            self.wf_struct(),
            self.lists@ == empty_lists(),
            forall|l: int| 0 <= l < BLOCK_LEVELS ==> #[trigger] self.levels@[l].head == 0,
            forall|i: int| 0 <= i < self.flags@.len() ==> #[trigger] self.flags@[i] == 0,
        ensures
            self.wf(),
    {
        reveal(blocks_wf);
        reveal(flags_wf);
        let npages = self.num_pages() as nat;
        assert forall|l: int, q: int|
            0 <= l < BLOCK_LEVELS && 0 <= q < level_bits(npages, l as nat) implies #[trigger] flag_at(
            self.num_pages(),
            self.flags@,
            l,
            q,
        ) == (self.lists@[l].contains(2 * q * block_pages(l)) != self.lists@[l].contains(
            (2 * q + 1) * block_pages(l),
        )) by {
            lemma_level_offset_monotonic(npages, (l + 1) as nat, BLOCK_LEVELS as nat);
            assert(q / 64 < level_words(npages, l as nat)) by {
                vstd::arithmetic::div_mod::lemma_fundamental_div_mod(q, 64);
                vstd::arithmetic::div_mod::lemma_fundamental_div_mod((level_bits(npages, l as nat) + 63) as int, 64);
            }
            lemma_zero_bit((q % 64) as u64);
        }
        assert forall|l: int| 0 <= l < BLOCK_LEVELS implies #[trigger] self.wf_links_level(l) by {
            reveal(links_level_wf);
        }
    }

    /// Initializes the allocator's free lists and flags from the available
    /// ranges.
    ///
    /// Ranges outside the physical part of the address space or outside the
    /// served area are skipped. Each accepted range is carved into maximal
    /// blocks aligned on their size in physical memory.
    #[verifier::spinoff_prover]
    #[verifier::rlimit(100)]
    fn init_metadata(&mut self, avail: &[Range], area_base: usize, area_size: usize)
        requires
            old(self).wf_struct(),
            old(self).base <= area_base,
            area_base + area_size == old(self).base + old(self).size,
            old(self).lists@ == empty_lists(),
            forall|l: int| 0 <= l < BLOCK_LEVELS ==> #[trigger] old(self).levels@[l].head == 0,
            ranges_ok(avail@, old(self).virtual_base, area_base, area_size),
        ensures
            final(self).wf(),
            final(self).base == old(self).base,
            final(self).size == old(self).size,
            final(self).virtual_base == old(self).virtual_base,
            final(self).lists@ == init_lists(
                avail@,
                old(self).virtual_base,
                area_base,
                area_size,
                old(self).base,
                empty_lists(),
            ),
    {
        let mut i: usize = 0;
        while i < self.flags.len()
            invariant
                self.wf_struct(),
                i <= self.flags@.len(),
                self.base == old(self).base,
                self.size == old(self).size,
                self.virtual_base == old(self).virtual_base,
                self.lists@ == empty_lists(),
                self.levels@ == old(self).levels@,
                forall|j: int| 0 <= j < i ==> #[trigger] self.flags@[j] == 0,
            decreases self.flags@.len() - i,
        {
            self.flags.set(i, 0);
            i += 1;
        }
        proof {
            self.lemma_empty_wf();
        }

        let virtual_base = self.virtual_base;
        let ghost vb = self.virtual_base;
        let ghost origin = self.base;
        let ghost npages = self.num_pages();
        let mut idx: usize = 0;
        while idx < avail.len()
            invariant
                self.wf(),
                self.base == origin,
                self.size == old(self).size,
                self.virtual_base == vb,
                virtual_base == vb,
                origin == old(self).base,
                origin <= area_base,
                area_base + area_size == origin + self.size,
                vb == old(self).virtual_base,
                npages == self.num_pages(),
                idx <= avail@.len(),
                ranges_ok(avail@, vb, area_base, area_size),
                self.lists@ == init_lists(avail@.subrange(0, idx as int), vb, area_base, area_size, origin, empty_lists()),
                forall|l: int, i: int, k: int|
                    #![trigger self.lists@[l][i], avail@[k]]
                    0 <= l < BLOCK_LEVELS && 0 <= i < self.lists@[l].len() && idx <= k < avail@.len()
                        && range_accepted(avail@[k], vb, area_base, area_size) ==> span_disjoint(
                        l,
                        self.lists@[l][i],
                        range_start(avail@[k], vb, origin),
                        range_pages(avail@[k]),
                    ),
            decreases avail@.len() - idx,
        {
            let range = avail[idx];
            proof {
                assert(avail@.subrange(0, idx + 1).drop_last() =~= avail@.subrange(0, idx as int));
                assert(avail@.subrange(0, idx + 1).last() == range);
            }

            // Skip ranges that are not physical, that would overflow into the
            // kernel segment, or that are not enclosed in the served area.
            if range.base & virtual_base != 0 || range.base > virtual_base || virtual_base - range.base
                < range.size || range.base < area_base - virtual_base || range.base + range.size
                > area_base + area_size - virtual_base {
                proof {
                    assert(!range_accepted(range, vb, area_base, area_size));
                }
                idx += 1;
                continue;
            }
            proof {
                assert(range_accepted(range, vb, area_base, area_size));
            }
            let ghost start = range_start(range, vb, origin);
            let ghost start_lists = self.lists@;
            let mut addr = range.base;
            let mut remaining = range.size;

            while remaining >= PAGE_SIZE
                invariant
                    self.wf(),
                    self.base == origin,
                    origin <= area_base,
                    area_base + area_size == origin + self.size,
                    self.virtual_base == vb,
                    virtual_base == vb,
                    npages == self.num_pages(),
                    idx < avail@.len(),
                    range == avail@[idx as int],
                    range_accepted(range, vb, area_base, area_size),
                    ranges_ok(avail@, vb, area_base, area_size),
                    start == range_start(range, vb, origin),
                    range.base <= addr,
                    addr - range.base + remaining == range.size,
                    (addr + vb - origin) % PAGE_SIZE as int == 0,
                    carve(self.lists@, (addr + vb - origin) / PAGE_SIZE as int, (remaining / PAGE_SIZE) as int)
                        == carve(start_lists, start, range_pages(range)),
                    forall|l: int, i: int|
                        #![trigger self.lists@[l][i]]
                        0 <= l < BLOCK_LEVELS && 0 <= i < self.lists@[l].len() ==> span_disjoint(
                            l,
                            self.lists@[l][i],
                            (addr + vb - origin) / PAGE_SIZE as int,
                            (remaining / PAGE_SIZE) as int,
                        ),
                    forall|l: int, i: int, k: int|
                        #![trigger self.lists@[l][i], avail@[k]]
                        0 <= l < BLOCK_LEVELS && 0 <= i < self.lists@[l].len() && idx < k < avail@.len()
                            && range_accepted(avail@[k], vb, area_base, area_size) ==> span_disjoint(
                            l,
                            self.lists@[l][i],
                            range_start(avail@[k], vb, origin),
                            range_pages(avail@[k]),
                        ),
                decreases remaining,
            {
                let ghost a = (addr + vb - origin) / PAGE_SIZE as int;
                let ghost npr = (remaining / PAGE_SIZE) as int;
                proof {
                    lemma_word_ops((addr + virtual_base - self.base) as usize);
                    lemma_word_ops(remaining);
                }
                let page_num = (addr + virtual_base - self.base) >> PAGE_SHIFT;

                // Each block must be aligned on its size in physical memory
                // (page 0 is aligned on the largest block size). The
                // alignment of a page is given by its least-significant 1 bit.
                let max_level = if page_num == 0 {
                    BLOCK_LEVELS - 1
                } else {
                    let addr_align = least_significant_bit(page_num as u64);
                    let l = floor_log2(addr_align) as usize;
                    if l < BLOCK_LEVELS - 1 {
                        l
                    } else {
                        BLOCK_LEVELS - 1
                    }
                };

                // The block size is also capped by the remaining memory size.
                let pages_remaining = remaining >> PAGE_SHIFT;
                let fl = floor_log2(pages_remaining as u64) as usize;
                let level = if fl < max_level {
                    fl
                } else {
                    max_level
                };
                proof {
                    assert(level == carve_level(a, npr));
                    lemma_carve_block(a, npr);
                    lemma_block_pages(level as int);
                    lemma_shl(PAGE_SIZE, level);
                    assert(block_ok(npages, level as int, a)) by {
                        assert((range.base + vb + range.size - origin) / 4096 <= npages);
                    }
                }
                let size = PAGE_SIZE << level;

                // Add the block to the level's available list.
                self.add_to_list(level, addr + virtual_base);
                addr += size;
                remaining -= size;
            }
            proof {
                assert(carve(self.lists@, (addr + vb - origin) / PAGE_SIZE as int, (remaining / PAGE_SIZE) as int) == self.lists@);
            }
            idx += 1;
        }
        proof {
            assert(avail@.subrange(0, avail@.len() as int) =~= avail@);
        }
    }
    /// The virtual addresses of the free blocks of `level`, in list order
    /// from the level's head, read by following the blocks' `next` links.
    pub fn free_blocks(&self, level: usize) -> (r: Vec<usize>)
        requires
            self.wf(),
            level < BLOCK_LEVELS,
        ensures
            r@.len() == self.free_lists()[level as int].len(),
            forall|i: int| 0 <= i < r@.len() ==> r@[i] == self.addr_of(#[trigger] self.free_lists()[level as int][i]),
    {
        let ghost s = self.lists@[level as int];
        proof {
            assert(self.wf_links_level(level as int));
            reveal(links_level_wf);
            reveal(blocks_wf);
        }
        let mut r: Vec<usize> = Vec::new();
        let head = self.levels[level].head;
        if head == 0 {
            return r;
        }
        let mut ptr = head;
        loop
            invariant_except_break
                r@.len() < s.len(),
                ptr == self.base + s[r@.len() as int] * PAGE_SIZE as int,
            invariant
                self.wf(),
                level < BLOCK_LEVELS,
                s == self.lists@[level as int],
                s.len() > 0,
                head == self.base + s[0] * PAGE_SIZE as int,
                forall|i: int| 0 <= i < r@.len() ==> r@[i] == self.addr_of(#[trigger] s[i]),
            ensures
                r@.len() == s.len(),
                forall|i: int| 0 <= i < r@.len() ==> r@[i] == self.addr_of(#[trigger] s[i]),
            decreases s.len() - r@.len(),
        {
            let ghost k = r@.len() as int;
            proof {
                assert(self.wf_links_level(level as int));
                reveal(links_level_wf);
                reveal(blocks_wf);
                assert(block_ok(self.num_pages(), level as int, s[k]));
                lemma_block_pages(level as int);
                assert(s[k] < self.num_pages());
                assert(self.num_pages() * PAGE_SIZE as int <= self.size) by {
                    vstd::arithmetic::div_mod::lemma_fundamental_div_mod(self.size as int, PAGE_SIZE as int);
                }
                assert(s[k] * PAGE_SIZE as int + PAGE_SIZE as int <= self.size) by (nonlinear_arith)
                    requires
                        s[k] + 1 <= self.num_pages(),
                        self.num_pages() * PAGE_SIZE as int <= self.size;
            }
            r.push(ptr);
            let node = self.nodes[(ptr - self.base) / PAGE_SIZE];
            ptr = node.next;
            proof {
                assert(node == self.nodes@[s[k]]);
                assert(self.nodes@[s[k]].next == self.base + next_of(s, k) * PAGE_SIZE as int);
            }
            if ptr == head {
                proof {
                    if k + 1 < s.len() {
                        assert(blocks_disjoint(level as int, s[0], level as int, s[k + 1]));
                        assert(s[k + 1] != s[0]);
                    }
                }
                break;
            }
        }
        r
    }

    /// Whether the flag bit of the buddy pair holding the block of `level`
    /// at `block_addr` is set: exactly when one of the two buddies is free at
    /// that level.
    pub fn pair_flag(&self, level: usize, block_addr: usize) -> (r: bool)
        requires
            self.wf(),
            level < BLOCK_LEVELS,
            self.area_base() <= block_addr,
            (block_addr - self.area_base()) % PAGE_SIZE as int == 0,
            block_ok(self.num_pages(), level as int, (block_addr - self.area_base()) / PAGE_SIZE as int),
        ensures
            ({
                let q = pair_of(level as int, (block_addr - self.area_base()) / PAGE_SIZE as int);
                let l = self.free_lists()[level as int];
                r == (l.contains(2 * q * block_pages(level as int)) != l.contains((2 * q + 1) * block_pages(level as int)))
            }),
    {
        let (index, bit) = self.get_flag_index_and_bit(block_addr, level);
        let w = self.flags[index];
        proof {
            reveal(flags_wf);
            let q = pair_of(level as int, (block_addr - self.base) / PAGE_SIZE as int);
            let l = self.lists@[level as int];
            assert(flag_at(self.num_pages(), self.flags@, level as int, q) == (l.contains(2 * q * block_pages(level as int))
                != l.contains((2 * q + 1) * block_pages(level as int))));
        }
        (w >> (bit as u64)) & 1u64 == 1u64
    }

    /// Calculates the amount of memory required for the allocator's metadata
    /// for `size` bytes of numbered pages, in bytes. An allocator made by
    /// `new` numbers its pages from the largest block boundary at or below its
    /// base, so its metadata is `calc_metadata_size(base % MAX_BLOCK_SIZE +
    /// size)` bytes (for a page-aligned base); for a base on such a boundary
    /// that is `calc_metadata_size(size)`.
    pub fn calc_metadata_size(size: usize) -> (r: usize)
        ensures
            r == 8 * metadata_words((size / PAGE_SIZE) as nat),
            r <= 88 * (size / PAGE_SIZE + 1),
    {
        proof {
            lemma_level_bounds((size / PAGE_SIZE) as nat, BLOCK_LEVELS as nat);
        }
        let (_, size) = make_levels(size);
        size
    }

    /// Constructs an allocator for the memory area at physical address `base`
    /// of `size` bytes, with the kernel segment at `virtual_base`.
    ///
    /// Pages are numbered from the area base aligned down to the largest
    /// block size (4 MiB), not from the area base itself: blocks are then
    /// aligned on their size in physical memory, as the block layout and
    /// `free` require. The pages between that boundary and the area base are
    /// never free. `area_base` is that boundary (virtual), `num_pages` counts
    /// the pages from it to the end of the area, and the metadata covers them
    /// all: `calc_metadata_size(new_span(base, size))` bytes.
    ///
    /// The base and size are aligned down to whole pages. Returns `None` when
    /// the area is at address 0, is smaller than a page, is not physical, would
    /// overflow the address space, or when no ranges are available. Otherwise
    /// the free lists are initialized from the available ranges.
    #[verifier::spinoff_prover]
    #[verifier::rlimit(100)]
    pub fn new(base: usize, size: usize, virtual_base: usize, avail: &[Range]) -> (r: Option<PageAllocator>)
        requires
            virtual_base % PAGE_SIZE == 0,
            new_accepted(base, size, virtual_base, avail@.len() as int) ==> ranges_ok(
                avail@,
                virtual_base,
                (virtual_base + new_phys_base(base)) as usize,
                new_area_size(size) as usize,
            ),
        ensures
            r is Some <==> new_accepted(base, size, virtual_base, avail@.len() as int),
            r matches Some(a) ==> {
                &&& a.wf()
                &&& a.area_base() == virtual_base + new_origin(base)
                &&& a.num_pages() == new_span(base, size) / PAGE_SIZE as int
                &&& a.metadata_size() == 8 * metadata_words((new_span(base, size) / PAGE_SIZE as int) as nat)
                &&& a.kernel_base() == virtual_base
                &&& a.free_lists() == init_lists(
                    avail@,
                    virtual_base,
                    (virtual_base + new_phys_base(base)) as usize,
                    new_area_size(size) as usize,
                    (virtual_base + new_origin(base)) as usize,
                    empty_lists(),
                )
            },
    {
        // Align the base and size down.
        proof {
            lemma_page_size_pow2();
        }
        let base = align_down(base, PAGE_SIZE);
        let size = align_down(size, PAGE_SIZE);

        if base == 0 {
            return None;
        }
        if size < PAGE_SIZE {
            return None;
        }
        // Ensure the base address is physical.
        if base & virtual_base != 0 {
            return None;
        }
        // Ensure that the area does not run into the kernel segment, and that
        // its virtual end fits in the address space.
        if base > virtual_base || virtual_base - base < size {
            return None;
        }
        if base + size > usize::MAX - virtual_base {
            return None;
        }
        if avail.len() == 0 {
            return None;
        }

        // Pages are numbered from the largest block boundary at or below the
        // area, so that blocks are aligned on their size in physical memory.
        proof {
            vstd::arithmetic::power2::lemma2_to64();
            assert(MAX_BLOCK_SIZE == pow2(22));
        }
        let origin = align_down(base, MAX_BLOCK_SIZE);
        let span = base - origin + size;
        let (levels, meta_size) = make_levels(span);
        let words = meta_size >> WORD_SHIFT;
        let pages = span >> PAGE_SHIFT;
        proof {
            lemma_word_ops(meta_size);
            lemma_word_ops(span);
        }
        let mut flags: Vec<u64> = Vec::new();
        while flags.len() < words
            invariant
                words == metadata_words((span / PAGE_SIZE) as nat),
                flags@.len() <= words,
            decreases words - flags@.len(),
        {
            flags.push(0);
        }
        let mut nodes: Vec<BlockNode> = Vec::new();
        while nodes.len() < pages
            invariant
                pages == span / PAGE_SIZE,
                nodes@.len() <= pages,
            decreases pages - nodes@.len(),
        {
            nodes.push(BlockNode { next: 0, prev: 0, checksum: 0 });
        }

        let mut allocator = PageAllocator {
            base: virtual_base + origin,
            size: span,
            virtual_base,
            levels,
            flags,
            nodes,
            lists: Ghost(empty_lists()),
        };
        proof {
            assert(allocator.wf_struct());
        }
        allocator.init_metadata(avail, virtual_base + base, size);
        Some(allocator)
    }
}

/// Whether an allocation of `pages` pages from `a` succeeds: a positive
/// page count and a free block at or above the level it needs.
pub open spec fn allocates(a: PageAllocator, pages: usize) -> bool {
    pages > 0 && first_free_level(a.free_lists(), alloc_level(pages)) < BLOCK_LEVELS
}

/// `a2` is `a` after a successful allocation of `pages` pages that returned
/// the physical base `base` and page count `n` (see `PageAllocator::allocate`).
pub open spec fn allocation(a: PageAllocator, a2: PageAllocator, pages: usize, base: usize, n: usize) -> bool {
    let m = alloc_level(pages);
    let top = first_free_level(a.free_lists(), m);
    let p = a.free_lists()[top][0];
    &&& a2.wf()
    &&& a2.area_base() == a.area_base()
    &&& a2.num_pages() == a.num_pages()
    &&& a2.kernel_base() == a.kernel_base()
    &&& base == a.phys_of(p) as usize
    &&& n == pow2(m as nat) as usize
    &&& a.phys_of(p) % (pow2(m as nat) * PAGE_SIZE) == 0
    &&& a2.free_lists() == split_lists(a.free_lists(), top, m, p)
    &&& block_ok(a.num_pages(), m, p)
    &&& disjoint_from_lists(a2.free_lists(), m, p)
}

impl PageAllocator {
    /// The page numbers (counted from page 0, see `area_base`) that the
    /// free blocks hold.
    pub open spec fn free_memory(&self) -> Set<int> {
        free_pages(self.free_lists())
    }

    /// A successful allocation hands out a block whose pages were all free,
    /// and takes exactly those pages out of the free memory.
    pub proof fn law_allocate_takes_free_pages(&self, pages: usize)
        requires
            self.wf(),
            pages > 0,
            first_free_level(self.free_lists(), alloc_level(pages)) < BLOCK_LEVELS,
        ensures
            ({
                let m = alloc_level(pages);
                let top = first_free_level(self.free_lists(), m);
                let p = self.free_lists()[top][0];
                &&& block_set(m, p).subset_of(self.free_memory())
                &&& free_pages(split_lists(self.free_lists(), top, m, p)) == self.free_memory().difference(
                    block_set(m, p),
                )
            }),
    {
        reveal(blocks_wf);
        let m = alloc_level(pages);
        assert(m >= 0);
        lemma_first_free_level(self.free_lists(), m);
        let top = first_free_level(self.free_lists(), m);
        lemma_free_pages_split(self.free_lists(), top, m, self.free_lists()[top][0]);
    }

    /// Freeing a block adds exactly its pages to the free memory, whatever
    /// merges with free buddies happen on the way.
    pub proof fn law_free_adds_pages(&self, base: usize, pages: usize)
        requires
            self.wf(),
            base != 0,
            pages != 0,
            is_power_of_2(pages),
            msb(pages as u64) < BLOCK_LEVELS,
            base + self.kernel_base() >= self.area_base(),
            (base + self.kernel_base() - self.area_base()) % PAGE_SIZE as int == 0,
            block_ok(
                self.num_pages(),
                msb(pages as u64) as int,
                (base + self.kernel_base() - self.area_base()) / PAGE_SIZE as int,
            ),
            disjoint_from_lists(
                self.free_lists(),
                msb(pages as u64) as int,
                (base + self.kernel_base() - self.area_base()) / PAGE_SIZE as int,
            ),
        ensures
            ({
                let l = msb(pages as u64) as int;
                let p = (base + self.kernel_base() - self.area_base()) / PAGE_SIZE as int;
                free_pages(coalesce(self.free_lists(), l, p)) == self.free_memory().union(block_set(l, p))
            }),
    {
        reveal(blocks_wf);
        lemma_msb(pages as u64);
        let l = msb(pages as u64) as int;
        let p = (base + self.kernel_base() - self.area_base()) / PAGE_SIZE as int;
        lemma_free_pages_coalesce(self.free_lists(), l, p);
    }

    /// Freeing the block that an allocation handed out merges back the
    /// halves that the allocation split off: every level holds the blocks it
    /// held before, and the block split at the top level returns to that
    /// level (at the tail of its list). This holds unless the buddy of the
    /// split block was free at the top level too: freeing then merges one
    /// level further.
    pub proof fn law_free_restores_levels(&self, pages: usize)
        requires
            self.wf(),
            pages > 0,
            first_free_level(self.free_lists(), alloc_level(pages)) < BLOCK_LEVELS,
            ({
                let top = first_free_level(self.free_lists(), alloc_level(pages));
                let p = self.free_lists()[top][0];
                top == BLOCK_LEVELS - 1 || !self.free_lists()[top].contains(buddy_of(top, p))
            }),
        ensures
            ({
                let lists = self.free_lists();
                let m = alloc_level(pages);
                let top = first_free_level(lists, m);
                let p = lists[top][0];
                let after = coalesce(split_lists(lists, top, m, p), m, p);
                &&& after.len() == BLOCK_LEVELS
                &&& forall|l: int| 0 <= l < BLOCK_LEVELS && l != top ==> #[trigger] after[l] == lists[l]
                &&& after[top] == lists[top].drop_first().push(p)
                &&& after[top].len() == lists[top].len()
                &&& forall|x: int| #[trigger] after[top].contains(x) == lists[top].contains(x)
            }),
    {
        reveal(blocks_wf);
        let lists = self.free_lists();
        let m = alloc_level(pages);
        assert(m >= 0);
        lemma_first_free_level(lists, m);
        let top = first_free_level(lists, m);
        let p = lists[top][0];
        assert(block_ok(self.num_pages(), top, p));
        lemma_block_pages(top);
        assert forall|k: int| m <= k < top implies !(#[trigger] lists[k]).contains(p + block_pages(k)) by {
            lemma_block_pages(k);
            if lists[k].contains(p + block_pages(k)) {
                let i = choose|i: int| 0 <= i < lists[k].len() && lists[k][i] == p + block_pages(k);
                assert(blocks_disjoint(top, lists[top][0], k, lists[k][i]));
                lemma_block_pages_grow(k, top);
            }
        }
        if top < BLOCK_LEVELS - 1 {
            if lists[top].drop_first().contains(buddy_of(top, p)) {
                let i = choose|i: int| 0 <= i < lists[top].drop_first().len() && lists[top].drop_first()[i] == buddy_of(top, p);
                assert(lists[top][i + 1] == buddy_of(top, p));
                assert(lists[top].contains(buddy_of(top, p)));
            }
        }
        assert(split_lists(lists, top, m, p) =~= partly_merged(lists, top, m, p));
        lemma_merge_back(lists, top, m, p);
        let after = coalesce(split_lists(lists, top, m, p), m, p);
        assert forall|x: int| #[trigger] after[top].contains(x) == lists[top].contains(x) by {
            if lists[top].contains(x) {
                let i = choose|i: int| 0 <= i < lists[top].len() && lists[top][i] == x;
                if i > 0 {
                    assert(after[top][i - 1] == x);
                } else {
                    assert(after[top][after[top].len() - 1] == x);
                }
            }
            if after[top].contains(x) {
                let i = choose|i: int| 0 <= i < after[top].len() && after[top][i] == x;
                if i < lists[top].len() - 1 {
                    assert(lists[top][i + 1] == x);
                } else {
                    assert(lists[top][0] == x);
                }
            }
        }
    }

    /// Freeing the block that an allocation handed out gives the free memory
    /// back as it was before the allocation.
    pub proof fn law_free_undoes_allocate(&self, pages: usize)
        requires
            self.wf(),
            pages > 0,
            first_free_level(self.free_lists(), alloc_level(pages)) < BLOCK_LEVELS,
        ensures
            ({
                let m = alloc_level(pages);
                let top = first_free_level(self.free_lists(), m);
                let p = self.free_lists()[top][0];
                free_pages(coalesce(split_lists(self.free_lists(), top, m, p), m, p)) == self.free_memory()
            }),
    {
        reveal(blocks_wf);
        let lists = self.free_lists();
        let m = alloc_level(pages);
        assert(m >= 0);
        lemma_first_free_level(lists, m);
        let top = first_free_level(lists, m);
        let p = lists[top][0];
        lemma_free_pages_split(lists, top, m, p);
        lemma_split_disjoint(lists, top, m, p);
        assert(block_ok(self.num_pages(), top, p));
        lemma_block_pages(top);
        lemma_align_down_levels(p, m, top);
        lemma_free_pages_coalesce(split_lists(lists, top, m, p), m, p);
        assert(self.free_memory().difference(block_set(m, p)).union(block_set(m, p)) =~= self.free_memory());
    }
}

/// The free lists while the halves split off levels `m .. top` merge back:
/// levels from `l` up to `top` still hold their pushed half.
pub open spec fn partly_merged(lists: Seq<Seq<int>>, top: int, l: int, p: int) -> Seq<Seq<int>> {
    Seq::new(
        lists.len(),
        |k: int|
            if k == top {
                lists[k].drop_first()
            } else if l <= k < top {
                lists[k].push(p + block_pages(k))
            } else {
                lists[k]
            },
    )
}

/// A block aligned on a level above `l` is the lower buddy at level `l`.
proof fn lemma_lower_buddy(p: int, l: int, top: int)
    requires
        0 <= l < top < BLOCK_LEVELS,
        p >= 0,
        p % block_pages(top) == 0,
    ensures
        buddy_of(l, p) == p + block_pages(l),
{
    lemma_align_down_levels(p, l + 1, top);
    lemma_block_pages(l);
    lemma_block_pages(l + 1);
    let bp = block_pages(l);
    let d = p / block_pages(l + 1);
    vstd::arithmetic::div_mod::lemma_fundamental_div_mod(p, block_pages(l + 1));
    assert(p == (2 * d) * bp) by (nonlinear_arith)
        requires p == block_pages(l + 1) * d + 0, block_pages(l + 1) == 2 * bp;
    vstd::arithmetic::div_mod::lemma_div_multiples_vanish(2 * d, bp);
    assert(p / bp == 2 * d);
    vstd::arithmetic::div_mod::lemma_mod_multiples_basic(d, 2);
    assert((d * 2) % 2 == 0);
    assert(2 * d == d * 2);
}

/// Returning a block whose split halves are still free at every level from
/// `l` to `top - 1` merges them all back, and the block goes to the tail of
/// level `top` (when its buddy there is not free).
proof fn lemma_merge_back(lists: Seq<Seq<int>>, top: int, l: int, p: int)
    requires
        lists.len() == BLOCK_LEVELS,
        0 <= l <= top < BLOCK_LEVELS,
        lists[top].len() > 0,
        p >= 0,
        p % block_pages(top) == 0,
        forall|k: int| l <= k < top ==> !(#[trigger] lists[k]).contains(p + block_pages(k)),
        top == BLOCK_LEVELS - 1 || !lists[top].drop_first().contains(buddy_of(top, p)),
    ensures
        coalesce(partly_merged(lists, top, l, p), l, p) == lists.update(top, lists[top].drop_first().push(p)),
    decreases top - l,
{
    let t = partly_merged(lists, top, l, p);
    if l == top {
        assert(t =~= lists.update(top, lists[top].drop_first()));
        assert(coalesce(t, l, p) == t.update(l, t[l].push(p)));
        assert(t.update(l, t[l].push(p)) =~= lists.update(top, lists[top].drop_first().push(p)));
    } else {
        lemma_lower_buddy(p, l, top);
        let b = p + block_pages(l);
        lemma_block_pages(l);
        assert(t[l] == lists[l].push(b));
        assert(t[l].contains(b)) by {
            assert(t[l][t[l].len() - 1] == b);
        }
        t[l].index_of_first_ensures(b);
        let i = t[l].index_of_first(b).unwrap();
        assert(i == lists[l].len()) by {
            if i < lists[l].len() {
                assert(lists[l][i] == b);
                assert(lists[l].contains(b));
            }
        }
        assert(t[l].remove_value(b) =~= lists[l]);
        assert(t.update(l, t[l].remove_value(b)) =~= partly_merged(lists, top, l + 1, p));
        lemma_merge_back(lists, top, l + 1, p);
    }
}

/// Two successive allocations, with no free in between, hand out blocks
/// whose physical address ranges do not overlap: no page is handed out twice
/// while it is allocated. Each block's address is a multiple of its size.
pub proof fn law_allocations_disjoint(
    a: PageAllocator,
    a1: PageAllocator,
    a2: PageAllocator,
    n1: usize,
    b1: usize,
    p1: usize,
    n2: usize,
    b2: usize,
    p2: usize,
)
    requires
        a.wf(),
        allocates(a, n1),
        allocation(a, a1, n1, b1, p1),
        allocates(a1, n2),
        allocation(a1, a2, n2, b2, p2),
    ensures
        b1 + p1 * PAGE_SIZE <= b2 || b2 + p2 * PAGE_SIZE <= b1,
        b1 as int % (p1 * PAGE_SIZE) == 0,
        b2 as int % (p2 * PAGE_SIZE) == 0,
{
    a.lemma_layout();
    a1.lemma_layout();
    let m1 = alloc_level(n1);
    let top1 = first_free_level(a.free_lists(), m1);
    let q1 = a.free_lists()[top1][0];
    let m2 = alloc_level(n2);
    let l1 = a1.free_lists();
    let top2 = first_free_level(l1, m2);
    let q2 = l1[top2][0];
    assert(m2 >= 0);
    lemma_first_free_level(l1, m2);
    assert(l1[top2].len() > 0);
    assert(blocks_disjoint(m1, q1, top2, l1[top2][0]));
    lemma_block_pages(m1);
    lemma_block_pages(m2);
    lemma_block_pages(top2);
    if m2 < top2 {
        lemma_block_pages_grow(m2, top2);
    }
    assert(block_pages(m1) == p1 as int);
    assert(block_pages(m2) == p2 as int);
    assert(a.phys_of(q1) == b1 as int);
    assert(a1.phys_of(q2) == b2 as int);
}

} // verus!
