//! Architecture-independent bit and alignment utilities.

use vstd::prelude::*;
use vstd::arithmetic::power2::pow2;
use crate::arch::common64::bits::{msb, lemma_msb};

verus! {

/// Seed for the XOR checksums.
pub const CHECKSUM_SEED: usize = 0x09a5_2af1;

/// The XOR of the seed and all values in `s`.
pub open spec fn xor_fold(s: Seq<usize>) -> usize
    decreases s.len(),
{
    if s.len() == 0 {
        CHECKSUM_SEED
    } else {
        xor_fold(s.drop_last()) ^ s.last()
    }
}

/// Computes a simple XOR checksum of a list of words.
///
/// The checksum is meant for simple error detection. It is not meant for
/// error correction or security.
pub fn xor_checksum(values: &[usize]) -> (r: usize)
    ensures
        r == xor_fold(values@),
{
    let mut r = CHECKSUM_SEED;
    let mut i: usize = 0;
    while i < values.len()
        invariant
            i <= values@.len(),
            r == xor_fold(values@.subrange(0, i as int)),
        decreases values@.len() - i,
    {
        assert(values@.subrange(0, (i + 1) as int).drop_last() =~= values@.subrange(0, i as int));
        r = r ^ values[i];
        i += 1;
    }
    assert(values@.subrange(0, values@.len() as int) =~= values@);
    r
}

/// The lowest set bit of `n` (0 when `n` is 0).
pub open spec fn lowest_bit(n: u64) -> u64 {
    n & (!n).wrapping_add(1)
}

proof fn lemma_lowest_bit(n: u64, w: u64, r: u64)
    by (bit_vector)
    requires
        w == (if n == 0u64 { 0u64 } else { ((!n) + 1u64) as u64 }),
        r == n & w,
    ensures
        (!n == 0xffff_ffff_ffff_ffffu64) == (n == 0u64),
        n == 0u64 ==> r == 0u64,
        n != 0u64 ==> r != 0u64 && r & ((r - 1u64) as u64) == 0u64 && n & ((r - 1u64) as u64) == 0u64,
{
}

/// Isolates the least significant set bit of `n`.
///
/// Returns a word with only the lowest set bit of `n` set, or 0 when `n` is
/// 0: the largest power of 2 dividing `n`.
pub fn least_significant_bit(n: u64) -> (r: u64)
    ensures
        r == lowest_bit(n),
        n == 0 ==> r == 0,
        n != 0 ==> r != 0 && r & ((r - 1) as u64) == 0 && n & ((r - 1) as u64) == 0,
{
    let w = (!n).wrapping_add(1);
    proof {
        let w2 = if n == 0 { 0u64 } else { ((!n) + 1u64) as u64 };
        lemma_lowest_bit(n, w2, n & w2);
    }
    n & w
}

/// Whether `a` is a power of 2 that fits in a word.
pub open spec fn is_pow2(a: usize) -> bool {
    exists|k: nat| k < usize::BITS && a == pow2(k)
}

/// The page size is a power of 2.
pub proof fn lemma_page_size_pow2()
    ensures
        is_pow2(4096),
{
    vstd::arithmetic::power2::lemma2_to64();
    assert(4096 == pow2(12));
}

/// Masking off the low bits of `addr` with `align - 1` leaves the largest
/// multiple of `align` at most `addr`.
proof fn lemma_mask_down(addr: usize, align: usize)
    requires
        is_pow2(align),
    ensures
        addr & !((align - 1) as usize) == addr - addr % align,
        align > 0,
{
    let k = choose|k: nat| k < usize::BITS && align == pow2(k);
    vstd::arithmetic::power2::lemma_pow2_pos(k);
    vstd::bits::lemma_usize_low_bits_mask_is_mod(addr, k);
    assert(vstd::bits::low_bits_mask(k) == pow2(k) - 1);
    let m = (align - 1) as usize;
    lemma_and_not(addr, m);
}

proof fn lemma_and_not(x: usize, m: usize)
    by (bit_vector)
    ensures
        x & !m == x - (x & m),
{
}

/// Aligns `addr` down to a multiple of `align`, a power of 2.
pub fn align_down(addr: usize, align: usize) -> (r: usize)
    requires
        is_pow2(align),
    ensures
        r == addr - addr % align,
        r % align == 0,
        r <= addr,
{
    proof {
        lemma_mask_down(addr, align);
        vstd::arithmetic::div_mod::lemma_fundamental_div_mod(addr as int, align as int);
        vstd::arithmetic::div_mod::lemma_mod_multiples_basic(addr as int / align as int, align as int);
    }
    addr & !(align - 1)
}

/// Aligns `addr` up to a multiple of `align`, a power of 2. The result must
/// fit in a word.
pub fn align_up(addr: usize, align: usize) -> (r: usize)
    requires
        is_pow2(align),
        addr + align - 1 <= usize::MAX,
    ensures
        r % align == 0,
        addr <= r < addr + align,
        r == addr + ((align - addr % align) as int) % (align as int),
{
    proof {
        lemma_mask_down((addr + (align - 1)) as usize, align);
        let a = addr as int;
        let al = align as int;
        let x = a + al - 1;
        vstd::arithmetic::div_mod::lemma_fundamental_div_mod(x, al);
        vstd::arithmetic::div_mod::lemma_fundamental_div_mod(a, al);
        vstd::arithmetic::div_mod::lemma_mod_multiples_basic(x / al, al);
        vstd::arithmetic::div_mod::lemma_mod_self_0(al);
        if a % al == 0 {
            vstd::arithmetic::div_mod::lemma_fundamental_div_mod_converse(x, al, a / al, al - 1);
        } else {
            vstd::arithmetic::div_mod::lemma_small_mod((al - a % al) as nat, al as nat);
            assert((a / al + 1) * al == (a / al) * al + al) by (nonlinear_arith);
            vstd::arithmetic::div_mod::lemma_fundamental_div_mod_converse(x, al, a / al + 1, a % al - 1);
        }
    }
    (addr + (align - 1)) & !(align - 1)
}

proof fn lemma_single_bit(r: u64, k: u64)
    by (bit_vector)
    requires
        r != 0u64,
        r & ((r - 1u64) as u64) == 0u64,
        k < 64,
        r >> k == 1u64,
    ensures
        r == 1u64 << k,
        ((1u64 << k) - 1u64) as u64 == ((r - 1u64) as u64),
{
}

/// A nonzero word is a multiple of its lowest set bit: `a` is divisible by
/// `2^msb(lowest_bit(a))`.
pub proof fn lemma_lowest_bit_divides(a: u64)
    requires
        a != 0,
    ensures
        msb(lowest_bit(a)) < 64,
        (a as int) % (pow2(msb(lowest_bit(a)) as nat) as int) == 0,
{
    let w = (!a).wrapping_add(1);
    let w2 = if a == 0 { 0u64 } else { ((!a) + 1u64) as u64 };
    lemma_lowest_bit(a, w2, a & w2);
    assert(w == w2);
    let r = lowest_bit(a);
    lemma_msb(r);
    let k = msb(r);
    lemma_single_bit(r, k);
    vstd::bits::lemma_u64_pow2_no_overflow(k as nat);
    vstd::bits::lemma_u64_shl_is_mul(1, k);
    vstd::bits::lemma_u64_low_bits_mask_is_mod(a, k as nat);
    assert(vstd::bits::low_bits_mask(k as nat) == pow2(k as nat) - 1);
}

} // verus!
