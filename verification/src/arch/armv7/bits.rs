//! ARMv7a bit manipulation utilities for 32-bit words.

use vstd::prelude::*;

verus! {

/// Number of bits set in the low `k` bits of `n`.
pub open spec fn bit_count32(n: u32, k: nat) -> nat
    decreases k,
{
    if k == 0 {
        0
    } else {
        bit_count32(n, (k - 1) as nat) + ((n >> ((k - 1) as u32)) & 1) as nat
    }
}

/// Index of the most significant set bit of `n` (0 when `n` is 0 or 1).
pub open spec fn msb32(n: u32) -> u32
    decreases n,
{
    if n <= 1 {
        0
    } else {
        proof {
            lemma_shr_one_decreases32(n);
        }
        (1 + msb32(n >> 1)) as u32
    }
}

pub proof fn lemma_shr_one_decreases32(n: u32)
    by (bit_vector)
    requires
        n > 1,
    ensures
        n >> 1u32 < n,
        n >> 1u32 > 0,
        n >> 1u32 < 0x8000_0000u32,
{
}

proof fn lemma_shr_facts32(n: u32, m: u32, k: u32)
    by (bit_vector)
    requires
        n > 1,
        m == n >> 1u32,
        k < 32,
    ensures
        k < 31 ==> m >> k == n >> (k + 1) as u32,
        m >> k == 1u32 ==> k < 31,
{
}

/// The most significant set bit of a nonzero word is the unique shift that
/// leaves exactly 1.
pub proof fn lemma_msb32(n: u32)
    requires
        n > 0,
    ensures
        msb32(n) < 32,
        n >> msb32(n) == 1,
    decreases n,
{
    if n == 1 {
        assert(1u32 >> 0u32 == 1u32) by (bit_vector);
    } else {
        lemma_shr_one_decreases32(n);
        let m = n >> 1u32;
        lemma_msb32(m);
        lemma_shr_facts32(n, m, msb32(m));
    }
}

proof fn lemma_shr_one_unique32(x: u32, a: u32, b: u32)
    by (bit_vector)
    requires
        a < 32,
        b < 32,
        x >> a == 1u32,
        x >> b == 1u32,
    ensures
        a == b,
        x > 0,
{
}

/// Any shift that leaves exactly 1 is the most significant bit.
pub proof fn lemma_msb32_unique(x: u32, j: u32)
    requires
        j < 32,
        x >> j == 1,
    ensures
        msb32(x) == j,
{
    lemma_shr_one_unique32(x, j, j);
    lemma_msb32(x);
    lemma_shr_one_unique32(x, msb32(x), j);
}

spec fn bit_sum32(n: u32) -> int {
    ((n >> 0u32) & 1u32) + ((n >> 1u32) & 1u32) + ((n >> 2u32) & 1u32) + ((n >> 3u32) & 1u32) + ((n >> 4u32) & 1u32) + ((n >> 5u32) & 1u32) + ((n >> 6u32) & 1u32) + ((n >> 7u32) & 1u32) + ((n >> 8u32) & 1u32) + ((n >> 9u32) & 1u32) + ((n >> 10u32) & 1u32) + ((n >> 11u32) & 1u32) + ((n >> 12u32) & 1u32) + ((n >> 13u32) & 1u32) + ((n >> 14u32) & 1u32) + ((n >> 15u32) & 1u32) + ((n >> 16u32) & 1u32) + ((n >> 17u32) & 1u32) + ((n >> 18u32) & 1u32) + ((n >> 19u32) & 1u32) + ((n >> 20u32) & 1u32) + ((n >> 21u32) & 1u32) + ((n >> 22u32) & 1u32) + ((n >> 23u32) & 1u32) + ((n >> 24u32) & 1u32) + ((n >> 25u32) & 1u32) + ((n >> 26u32) & 1u32) + ((n >> 27u32) & 1u32) + ((n >> 28u32) & 1u32) + ((n >> 29u32) & 1u32) + ((n >> 30u32) & 1u32) + ((n >> 31u32) & 1u32)
}

proof fn lemma_bit_count32_is_sum(n: u32)
    ensures
        bit_count32(n, 32) == bit_sum32(n),
{
    reveal_with_fuel(bit_count32, 33);
}

/// The steps of the 32-bit SWAR population count do not overflow.
proof fn lemma_swar32_no_overflow(n: u32, a: u32, b: u32, c: u32, d: u32)
    by (bit_vector)
    requires
        a == (n - ((n >> 1) & 0x5555_5555u32)) as u32,
        b == (((a >> 2) & 0x3333_3333u32) + (a & 0x3333_3333u32)) as u32,
        c == (((b >> 4) + b) as u32 & 0x0f0f_0f0fu32),
        d == (c + (c >> 8)) as u32,
    ensures
        (n >> 1) & 0x5555_5555u32 <= n,
        ((a >> 2) & 0x3333_3333u32) + (a & 0x3333_3333u32) <= u32::MAX,
        (b >> 4) + b <= u32::MAX,
        c + (c >> 8) <= u32::MAX,
        d + (d >> 16) <= u32::MAX,
{
}

proof fn lemma_swar32_pairs(n: u32, a: u32)
    by (bit_vector)
    requires
        a == (n - ((n >> 1) & 0x5555_5555u32)) as u32,
    ensures
        (((n >> 0u32) & 1u32) as int) <= 1,
        (((n >> 1u32) & 1u32) as int) <= 1,
        (((n >> 2u32) & 1u32) as int) <= 1,
        (((n >> 3u32) & 1u32) as int) <= 1,
        (((n >> 4u32) & 1u32) as int) <= 1,
        (((n >> 5u32) & 1u32) as int) <= 1,
        (((n >> 6u32) & 1u32) as int) <= 1,
        (((n >> 7u32) & 1u32) as int) <= 1,
        (((n >> 8u32) & 1u32) as int) <= 1,
        (((n >> 9u32) & 1u32) as int) <= 1,
        (((n >> 10u32) & 1u32) as int) <= 1,
        (((n >> 11u32) & 1u32) as int) <= 1,
        (((n >> 12u32) & 1u32) as int) <= 1,
        (((n >> 13u32) & 1u32) as int) <= 1,
        (((n >> 14u32) & 1u32) as int) <= 1,
        (((n >> 15u32) & 1u32) as int) <= 1,
        (((n >> 16u32) & 1u32) as int) <= 1,
        (((n >> 17u32) & 1u32) as int) <= 1,
        (((n >> 18u32) & 1u32) as int) <= 1,
        (((n >> 19u32) & 1u32) as int) <= 1,
        (((n >> 20u32) & 1u32) as int) <= 1,
        (((n >> 21u32) & 1u32) as int) <= 1,
        (((n >> 22u32) & 1u32) as int) <= 1,
        (((n >> 23u32) & 1u32) as int) <= 1,
        (((n >> 24u32) & 1u32) as int) <= 1,
        (((n >> 25u32) & 1u32) as int) <= 1,
        (((n >> 26u32) & 1u32) as int) <= 1,
        (((n >> 27u32) & 1u32) as int) <= 1,
        (((n >> 28u32) & 1u32) as int) <= 1,
        (((n >> 29u32) & 1u32) as int) <= 1,
        (((n >> 30u32) & 1u32) as int) <= 1,
        (((n >> 31u32) & 1u32) as int) <= 1,
        (((a >> 0u32) & 3u32) as int) == (((n >> 0u32) & 1u32) as int) + (((n >> 1u32) & 1u32) as int),
        (((a >> 2u32) & 3u32) as int) == (((n >> 2u32) & 1u32) as int) + (((n >> 3u32) & 1u32) as int),
        (((a >> 4u32) & 3u32) as int) == (((n >> 4u32) & 1u32) as int) + (((n >> 5u32) & 1u32) as int),
        (((a >> 6u32) & 3u32) as int) == (((n >> 6u32) & 1u32) as int) + (((n >> 7u32) & 1u32) as int),
        (((a >> 8u32) & 3u32) as int) == (((n >> 8u32) & 1u32) as int) + (((n >> 9u32) & 1u32) as int),
        (((a >> 10u32) & 3u32) as int) == (((n >> 10u32) & 1u32) as int) + (((n >> 11u32) & 1u32) as int),
        (((a >> 12u32) & 3u32) as int) == (((n >> 12u32) & 1u32) as int) + (((n >> 13u32) & 1u32) as int),
        (((a >> 14u32) & 3u32) as int) == (((n >> 14u32) & 1u32) as int) + (((n >> 15u32) & 1u32) as int),
        (((a >> 16u32) & 3u32) as int) == (((n >> 16u32) & 1u32) as int) + (((n >> 17u32) & 1u32) as int),
        (((a >> 18u32) & 3u32) as int) == (((n >> 18u32) & 1u32) as int) + (((n >> 19u32) & 1u32) as int),
        (((a >> 20u32) & 3u32) as int) == (((n >> 20u32) & 1u32) as int) + (((n >> 21u32) & 1u32) as int),
        (((a >> 22u32) & 3u32) as int) == (((n >> 22u32) & 1u32) as int) + (((n >> 23u32) & 1u32) as int),
        (((a >> 24u32) & 3u32) as int) == (((n >> 24u32) & 1u32) as int) + (((n >> 25u32) & 1u32) as int),
        (((a >> 26u32) & 3u32) as int) == (((n >> 26u32) & 1u32) as int) + (((n >> 27u32) & 1u32) as int),
        (((a >> 28u32) & 3u32) as int) == (((n >> 28u32) & 1u32) as int) + (((n >> 29u32) & 1u32) as int),
        (((a >> 30u32) & 3u32) as int) == (((n >> 30u32) & 1u32) as int) + (((n >> 31u32) & 1u32) as int),
{
}

proof fn lemma_swar32_nibbles(a: u32, b: u32)
    by (bit_vector)
    requires
        b == (((a >> 2) & 0x3333_3333u32) + (a & 0x3333_3333u32)) as u32,
    ensures
        (((b >> 0u32) & 15u32) as int) == (((a >> 0u32) & 3u32) as int) + (((a >> 2u32) & 3u32) as int),
        (((b >> 4u32) & 15u32) as int) == (((a >> 4u32) & 3u32) as int) + (((a >> 6u32) & 3u32) as int),
        (((b >> 8u32) & 15u32) as int) == (((a >> 8u32) & 3u32) as int) + (((a >> 10u32) & 3u32) as int),
        (((b >> 12u32) & 15u32) as int) == (((a >> 12u32) & 3u32) as int) + (((a >> 14u32) & 3u32) as int),
        (((b >> 16u32) & 15u32) as int) == (((a >> 16u32) & 3u32) as int) + (((a >> 18u32) & 3u32) as int),
        (((b >> 20u32) & 15u32) as int) == (((a >> 20u32) & 3u32) as int) + (((a >> 22u32) & 3u32) as int),
        (((b >> 24u32) & 15u32) as int) == (((a >> 24u32) & 3u32) as int) + (((a >> 26u32) & 3u32) as int),
        (((b >> 28u32) & 15u32) as int) == (((a >> 28u32) & 3u32) as int) + (((a >> 30u32) & 3u32) as int),
{
}

proof fn lemma_swar32_bytes(b: u32, c: u32)
    by (bit_vector)
    requires
        c == (((b >> 4) + b) as u32 & 0x0f0f_0f0fu32),
        (((b >> 0u32) & 15u32) as int) <= 4,
        (((b >> 4u32) & 15u32) as int) <= 4,
        (((b >> 8u32) & 15u32) as int) <= 4,
        (((b >> 12u32) & 15u32) as int) <= 4,
        (((b >> 16u32) & 15u32) as int) <= 4,
        (((b >> 20u32) & 15u32) as int) <= 4,
        (((b >> 24u32) & 15u32) as int) <= 4,
        (((b >> 28u32) & 15u32) as int) <= 4,
    ensures
        (((c >> 0u32) & 255u32) as int) == (((b >> 0u32) & 15u32) as int) + (((b >> 4u32) & 15u32) as int),
        (((c >> 8u32) & 255u32) as int) == (((b >> 8u32) & 15u32) as int) + (((b >> 12u32) & 15u32) as int),
        (((c >> 16u32) & 255u32) as int) == (((b >> 16u32) & 15u32) as int) + (((b >> 20u32) & 15u32) as int),
        (((c >> 24u32) & 255u32) as int) == (((b >> 24u32) & 15u32) as int) + (((b >> 28u32) & 15u32) as int),
{
}

proof fn lemma_swar32_fold(c: u32, d: u32, e: u32)
    by (bit_vector)
    requires
        d == (c + (c >> 8)) as u32,
        e == (d + (d >> 16)) as u32,
        (((c >> 0u32) & 255u32) as int) <= 8,
        (((c >> 8u32) & 255u32) as int) <= 8,
        (((c >> 16u32) & 255u32) as int) <= 8,
        (((c >> 24u32) & 255u32) as int) <= 8,
    ensures
        ((e & 0x3fu32) as int) == (((c >> 0u32) & 255u32) as int) + (((c >> 8u32) & 255u32) as int) + (((c >> 16u32) & 255u32) as int) + (((c >> 24u32) & 255u32) as int),
{
}

/// Fast 32-bit population count.
pub fn ones(addr: u32) -> (r: u32)
    ensures
        r == bit_count32(addr, 32),
{
    let ghost n0 = addr;
    let ghost a = (n0 - ((n0 >> 1) & 0x5555_5555u32)) as u32;
    let ghost b = (((a >> 2) & 0x3333_3333u32) + (a & 0x3333_3333u32)) as u32;
    let ghost c = (((b >> 4) + b) as u32 & 0x0f0f_0f0fu32);
    let ghost d = (c + (c >> 8)) as u32;
    let ghost e = (d + (d >> 16)) as u32;
    proof {
        lemma_swar32_no_overflow(n0, a, b, c, d);
        lemma_swar32_pairs(n0, a);
        lemma_swar32_nibbles(a, b);
        lemma_swar32_bytes(b, c);
        lemma_swar32_fold(c, d, e);
        lemma_bit_count32_is_sum(n0);
    }
    let mut n = addr;
    n -= (n >> 1) & 0x5555_5555;
    n = ((n >> 2) & 0x3333_3333) + (n & 0x3333_3333);
    n = ((n >> 4) + n) & 0x0f0f_0f0f;
    n += n >> 8;
    n += n >> 16;
    n & 0x3f
}

/// Smearing the most significant bit downwards and dropping the top bit
/// leaves a mask of the bits below the most significant bit.
proof fn lemma_smear32(n: u32, k: u32)
    by (bit_vector)
    requires
        k < 32,
        n >> k == 1u32 || (n == 0u32 && k == 0u32),
    ensures
        ({
            let s1 = n | (n >> 1u32);
            let s2 = s1 | (s1 >> 2u32);
            let s3 = s2 | (s2 >> 4u32);
            let s4 = s3 | (s3 >> 8u32);
            let s5 = s4 | (s4 >> 16u32);
            s5 >> 1u32 == ((1u32 << k) - 1u32) as u32
        }),
{
}

proof fn lemma_low_mask_bit32(k: u32, i: u32)
    by (bit_vector)
    requires
        k < 32,
        i < 32,
    ensures
        ((((1u32 << k) - 1u32) as u32) >> i) & 1u32 == (if i < k { 1u32 } else { 0u32 }),
{
}

proof fn lemma_bit_count32_low_mask(k: u32, j: nat)
    requires
        k < 32,
        j <= 32,
    ensures
        bit_count32(((1u32 << k) - 1u32) as u32, j) == (if j < k { j } else { k as nat }),
    decreases j,
{
    if j > 0 {
        lemma_bit_count32_low_mask(k, (j - 1) as nat);
        lemma_low_mask_bit32(k, (j - 1) as u32);
    }
}

/// Fast 32-bit floor base-2 log of an address: the position of the most
/// significant set bit, 0 when `addr` is 0.
pub fn floor_log2(addr: u32) -> (r: u32)
    ensures
        addr == 0 ==> r == 0,
        addr > 0 ==> r < 32 && addr >> r == 1,
        r == msb32(addr),
{
    let mut n = addr;
    n |= n >> 1;
    n |= n >> 2;
    n |= n >> 4;
    n |= n >> 8;
    n |= n >> 16;
    proof {
        let k = msb32(addr);
        if addr > 0 {
            lemma_msb32(addr);
        }
        lemma_smear32(addr, k);
        lemma_bit_count32_low_mask(k, 32);
    }
    ones(n >> 1)
}

proof fn lemma_ceil_parts32(n: u32, k: u32, w1: u32, m0: u32, w2: u32, m: u32)
    by (bit_vector)
    requires
        k < 32,
        n >> k == 1u32 || (n == 0u32 && k == 0u32),
        w1 == (if n == 0u32 { 0xffff_ffffu32 } else { (n - 1u32) as u32 }),
        m0 == n & w1,
        w2 == (if m0 == 0u32 { 0xffff_ffffu32 } else { (m0 - 1u32) as u32 }),
        m == (m0 | !w2) >> 31u32,
    ensures
        m <= 1u32,
        n <= 1u32 ==> m == 0u32,
        n > 1u32 && m0 == 0u32 ==> m == 0u32 && k >= 1u32 && ((n - 1u32) as u32) >> ((k - 1u32) as u32) == 1u32,
        n > 1u32 && m0 != 0u32 ==> m == 1u32 && ((n - 1u32) as u32) >> k == 1u32,
{
}

/// Fast 32-bit ceiling base-2 log of an address.
///
/// If `addr` is a power of 2, `m = 0` and the result is `floor( log2( addr ) )`.
/// Otherwise `m = 1` and the result is `floor( log2( addr ) ) + 1`.
pub fn ceil_log2(addr: u32) -> (r: u32)
    ensures
        addr <= 1 ==> r == 0,
        addr > 1 ==> r == msb32((addr - 1) as u32) + 1,
        r <= 32,
{
    let w1 = addr.wrapping_sub(1);
    let mut m = addr & w1;
    let ghost m0 = m;
    let w2 = m.wrapping_sub(1);
    m |= !w2;
    m >>= 31;

    let r = floor_log2(addr);
    proof {
        lemma_ceil_parts32(addr, r, w1, m0, w2, m);
        if addr > 1 {
            if m0 == 0 {
                lemma_msb32_unique((addr - 1) as u32, (r - 1) as u32);
            } else {
                lemma_msb32_unique((addr - 1) as u32, r);
            }
        }
    }
    r + m
}


/// The ceiling base-2 log is the floor base-2 log, plus one when `addr` is
/// not 0 and not a power of 2 (when `addr & (addr - 1)` is not 0): the two
/// agree exactly for 0 and the powers of 2.
pub proof fn law_ceil_log2_from_floor(addr: u32)
    ensures
        (if addr <= 1 { 0 } else { msb32((addr - 1) as u32) + 1 }) == msb32(addr) + (if addr > 1 && addr & ((addr
            - 1) as u32) != 0 {
            1int
        } else {
            0int
        }),
{
    let k = msb32(addr);
    if addr > 0 {
        lemma_msb32(addr);
    } else {
        assert(msb32(0u32) == 0) by {
            reveal_with_fuel(msb32, 2);
        }
    }
    let w1: u32 = if addr == 0 { 0xffff_ffffu32 } else { (addr - 1) as u32 };
    let m0: u32 = addr & w1;
    let w2: u32 = if m0 == 0 { 0xffff_ffffu32 } else { (m0 - 1) as u32 };
    let m: u32 = (m0 | !w2) >> 31u32;
    lemma_ceil_parts32(addr, k, w1, m0, w2, m);
    if addr > 1 {
        if m0 == 0 {
            lemma_msb32_unique((addr - 1) as u32, (k - 1) as u32);
        } else {
            lemma_msb32_unique((addr - 1) as u32, k);
        }
    }
}

} // verus!
