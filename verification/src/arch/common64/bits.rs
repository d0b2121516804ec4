//! 64-bit bit manipulation utilities.

use vstd::prelude::*;

verus! {

/// Random seed bytes for a checksum.
pub const CHECKSUM_SEED: u64 = 0x09a52af1c62bd04b;

/// Number of bits set in the low `k` bits of `n`.
pub open spec fn bit_count(n: u64, k: nat) -> nat
    decreases k,
{
    if k == 0 {
        0
    } else {
        bit_count(n, (k - 1) as nat) + ((n >> ((k - 1) as u64)) & 1) as nat
    }
}

/// The population count written out as a sum of the 64 individual bits.
spec fn bit_sum(n: u64) -> int {
    ((n >> 0u64) & 1u64) + ((n >> 1u64) & 1u64) + ((n >> 2u64) & 1u64) + ((n >> 3u64) & 1u64) + ((n >> 4u64) & 1u64) + ((n >> 5u64) & 1u64) + ((n >> 6u64) & 1u64) + ((n >> 7u64) & 1u64) + ((n >> 8u64) & 1u64) + ((n >> 9u64) & 1u64) + ((n >> 10u64) & 1u64) + ((n >> 11u64) & 1u64) + ((n >> 12u64) & 1u64) + ((n >> 13u64) & 1u64) + ((n >> 14u64) & 1u64) + ((n >> 15u64) & 1u64) + ((n >> 16u64) & 1u64) + ((n >> 17u64) & 1u64) + ((n >> 18u64) & 1u64) + ((n >> 19u64) & 1u64) + ((n >> 20u64) & 1u64) + ((n >> 21u64) & 1u64) + ((n >> 22u64) & 1u64) + ((n >> 23u64) & 1u64) + ((n >> 24u64) & 1u64) + ((n >> 25u64) & 1u64) + ((n >> 26u64) & 1u64) + ((n >> 27u64) & 1u64) + ((n >> 28u64) & 1u64) + ((n >> 29u64) & 1u64) + ((n >> 30u64) & 1u64) + ((n >> 31u64) & 1u64) + ((n >> 32u64) & 1u64) + ((n >> 33u64) & 1u64) + ((n >> 34u64) & 1u64) + ((n >> 35u64) & 1u64) + ((n >> 36u64) & 1u64) + ((n >> 37u64) & 1u64) + ((n >> 38u64) & 1u64) + ((n >> 39u64) & 1u64) + ((n >> 40u64) & 1u64) + ((n >> 41u64) & 1u64) + ((n >> 42u64) & 1u64) + ((n >> 43u64) & 1u64) + ((n >> 44u64) & 1u64) + ((n >> 45u64) & 1u64) + ((n >> 46u64) & 1u64) + ((n >> 47u64) & 1u64) + ((n >> 48u64) & 1u64) + ((n >> 49u64) & 1u64) + ((n >> 50u64) & 1u64) + ((n >> 51u64) & 1u64) + ((n >> 52u64) & 1u64) + ((n >> 53u64) & 1u64) + ((n >> 54u64) & 1u64) + ((n >> 55u64) & 1u64) + ((n >> 56u64) & 1u64) + ((n >> 57u64) & 1u64) + ((n >> 58u64) & 1u64) + ((n >> 59u64) & 1u64) + ((n >> 60u64) & 1u64) + ((n >> 61u64) & 1u64) + ((n >> 62u64) & 1u64) + ((n >> 63u64) & 1u64)
}

proof fn lemma_bit_count_is_sum(n: u64)
    ensures
        bit_count(n, 64) == bit_sum(n),
{
    reveal_with_fuel(bit_count, 65);
}

/// The steps of the SWAR population count do not overflow.
proof fn lemma_swar_no_overflow(n: u64, a: u64, b: u64, c: u64, d: u64, e: u64)
    by (bit_vector)
    requires
        a == (n - ((n >> 1) & 0x5555_5555_5555_5555u64)) as u64,
        b == (((a >> 2) & 0x3333_3333_3333_3333u64) + (a & 0x3333_3333_3333_3333u64)) as u64,
        c == (((b >> 4) + b) as u64 & 0x0f0f_0f0f_0f0f_0f0fu64),
        d == (c + (c >> 8)) as u64,
        e == (d + (d >> 16)) as u64,
    ensures
        (n >> 1) & 0x5555_5555_5555_5555u64 <= n,
        ((a >> 2) & 0x3333_3333_3333_3333u64) + (a & 0x3333_3333_3333_3333u64) <= u64::MAX,
        (b >> 4) + b <= u64::MAX,
        c + (c >> 8) <= u64::MAX,
        d + (d >> 16) <= u64::MAX,
        e + (e >> 32) <= u64::MAX,
{
}

/// After the first step, each 2-bit field holds the count of its two bits.
proof fn lemma_swar_pairs(n: u64, a: u64)
    by (bit_vector)
    requires
        a == (n - ((n >> 1) & 0x5555_5555_5555_5555u64)) as u64,
    ensures
        (((n >> 0u64) & 1u64) as int) <= 1,
        (((n >> 1u64) & 1u64) as int) <= 1,
        (((n >> 2u64) & 1u64) as int) <= 1,
        (((n >> 3u64) & 1u64) as int) <= 1,
        (((n >> 4u64) & 1u64) as int) <= 1,
        (((n >> 5u64) & 1u64) as int) <= 1,
        (((n >> 6u64) & 1u64) as int) <= 1,
        (((n >> 7u64) & 1u64) as int) <= 1,
        (((n >> 8u64) & 1u64) as int) <= 1,
        (((n >> 9u64) & 1u64) as int) <= 1,
        (((n >> 10u64) & 1u64) as int) <= 1,
        (((n >> 11u64) & 1u64) as int) <= 1,
        (((n >> 12u64) & 1u64) as int) <= 1,
        (((n >> 13u64) & 1u64) as int) <= 1,
        (((n >> 14u64) & 1u64) as int) <= 1,
        (((n >> 15u64) & 1u64) as int) <= 1,
        (((n >> 16u64) & 1u64) as int) <= 1,
        (((n >> 17u64) & 1u64) as int) <= 1,
        (((n >> 18u64) & 1u64) as int) <= 1,
        (((n >> 19u64) & 1u64) as int) <= 1,
        (((n >> 20u64) & 1u64) as int) <= 1,
        (((n >> 21u64) & 1u64) as int) <= 1,
        (((n >> 22u64) & 1u64) as int) <= 1,
        (((n >> 23u64) & 1u64) as int) <= 1,
        (((n >> 24u64) & 1u64) as int) <= 1,
        (((n >> 25u64) & 1u64) as int) <= 1,
        (((n >> 26u64) & 1u64) as int) <= 1,
        (((n >> 27u64) & 1u64) as int) <= 1,
        (((n >> 28u64) & 1u64) as int) <= 1,
        (((n >> 29u64) & 1u64) as int) <= 1,
        (((n >> 30u64) & 1u64) as int) <= 1,
        (((n >> 31u64) & 1u64) as int) <= 1,
        (((n >> 32u64) & 1u64) as int) <= 1,
        (((n >> 33u64) & 1u64) as int) <= 1,
        (((n >> 34u64) & 1u64) as int) <= 1,
        (((n >> 35u64) & 1u64) as int) <= 1,
        (((n >> 36u64) & 1u64) as int) <= 1,
        (((n >> 37u64) & 1u64) as int) <= 1,
        (((n >> 38u64) & 1u64) as int) <= 1,
        (((n >> 39u64) & 1u64) as int) <= 1,
        (((n >> 40u64) & 1u64) as int) <= 1,
        (((n >> 41u64) & 1u64) as int) <= 1,
        (((n >> 42u64) & 1u64) as int) <= 1,
        (((n >> 43u64) & 1u64) as int) <= 1,
        (((n >> 44u64) & 1u64) as int) <= 1,
        (((n >> 45u64) & 1u64) as int) <= 1,
        (((n >> 46u64) & 1u64) as int) <= 1,
        (((n >> 47u64) & 1u64) as int) <= 1,
        (((n >> 48u64) & 1u64) as int) <= 1,
        (((n >> 49u64) & 1u64) as int) <= 1,
        (((n >> 50u64) & 1u64) as int) <= 1,
        (((n >> 51u64) & 1u64) as int) <= 1,
        (((n >> 52u64) & 1u64) as int) <= 1,
        (((n >> 53u64) & 1u64) as int) <= 1,
        (((n >> 54u64) & 1u64) as int) <= 1,
        (((n >> 55u64) & 1u64) as int) <= 1,
        (((n >> 56u64) & 1u64) as int) <= 1,
        (((n >> 57u64) & 1u64) as int) <= 1,
        (((n >> 58u64) & 1u64) as int) <= 1,
        (((n >> 59u64) & 1u64) as int) <= 1,
        (((n >> 60u64) & 1u64) as int) <= 1,
        (((n >> 61u64) & 1u64) as int) <= 1,
        (((n >> 62u64) & 1u64) as int) <= 1,
        (((n >> 63u64) & 1u64) as int) <= 1,
        (((a >> 0u64) & 3u64) as int) == (((n >> 0u64) & 1u64) as int) + (((n >> 1u64) & 1u64) as int),
        (((a >> 2u64) & 3u64) as int) == (((n >> 2u64) & 1u64) as int) + (((n >> 3u64) & 1u64) as int),
        (((a >> 4u64) & 3u64) as int) == (((n >> 4u64) & 1u64) as int) + (((n >> 5u64) & 1u64) as int),
        (((a >> 6u64) & 3u64) as int) == (((n >> 6u64) & 1u64) as int) + (((n >> 7u64) & 1u64) as int),
        (((a >> 8u64) & 3u64) as int) == (((n >> 8u64) & 1u64) as int) + (((n >> 9u64) & 1u64) as int),
        (((a >> 10u64) & 3u64) as int) == (((n >> 10u64) & 1u64) as int) + (((n >> 11u64) & 1u64) as int),
        (((a >> 12u64) & 3u64) as int) == (((n >> 12u64) & 1u64) as int) + (((n >> 13u64) & 1u64) as int),
        (((a >> 14u64) & 3u64) as int) == (((n >> 14u64) & 1u64) as int) + (((n >> 15u64) & 1u64) as int),
        (((a >> 16u64) & 3u64) as int) == (((n >> 16u64) & 1u64) as int) + (((n >> 17u64) & 1u64) as int),
        (((a >> 18u64) & 3u64) as int) == (((n >> 18u64) & 1u64) as int) + (((n >> 19u64) & 1u64) as int),
        (((a >> 20u64) & 3u64) as int) == (((n >> 20u64) & 1u64) as int) + (((n >> 21u64) & 1u64) as int),
        (((a >> 22u64) & 3u64) as int) == (((n >> 22u64) & 1u64) as int) + (((n >> 23u64) & 1u64) as int),
        (((a >> 24u64) & 3u64) as int) == (((n >> 24u64) & 1u64) as int) + (((n >> 25u64) & 1u64) as int),
        (((a >> 26u64) & 3u64) as int) == (((n >> 26u64) & 1u64) as int) + (((n >> 27u64) & 1u64) as int),
        (((a >> 28u64) & 3u64) as int) == (((n >> 28u64) & 1u64) as int) + (((n >> 29u64) & 1u64) as int),
        (((a >> 30u64) & 3u64) as int) == (((n >> 30u64) & 1u64) as int) + (((n >> 31u64) & 1u64) as int),
        (((a >> 32u64) & 3u64) as int) == (((n >> 32u64) & 1u64) as int) + (((n >> 33u64) & 1u64) as int),
        (((a >> 34u64) & 3u64) as int) == (((n >> 34u64) & 1u64) as int) + (((n >> 35u64) & 1u64) as int),
        (((a >> 36u64) & 3u64) as int) == (((n >> 36u64) & 1u64) as int) + (((n >> 37u64) & 1u64) as int),
        (((a >> 38u64) & 3u64) as int) == (((n >> 38u64) & 1u64) as int) + (((n >> 39u64) & 1u64) as int),
        (((a >> 40u64) & 3u64) as int) == (((n >> 40u64) & 1u64) as int) + (((n >> 41u64) & 1u64) as int),
        (((a >> 42u64) & 3u64) as int) == (((n >> 42u64) & 1u64) as int) + (((n >> 43u64) & 1u64) as int),
        (((a >> 44u64) & 3u64) as int) == (((n >> 44u64) & 1u64) as int) + (((n >> 45u64) & 1u64) as int),
        (((a >> 46u64) & 3u64) as int) == (((n >> 46u64) & 1u64) as int) + (((n >> 47u64) & 1u64) as int),
        (((a >> 48u64) & 3u64) as int) == (((n >> 48u64) & 1u64) as int) + (((n >> 49u64) & 1u64) as int),
        (((a >> 50u64) & 3u64) as int) == (((n >> 50u64) & 1u64) as int) + (((n >> 51u64) & 1u64) as int),
        (((a >> 52u64) & 3u64) as int) == (((n >> 52u64) & 1u64) as int) + (((n >> 53u64) & 1u64) as int),
        (((a >> 54u64) & 3u64) as int) == (((n >> 54u64) & 1u64) as int) + (((n >> 55u64) & 1u64) as int),
        (((a >> 56u64) & 3u64) as int) == (((n >> 56u64) & 1u64) as int) + (((n >> 57u64) & 1u64) as int),
        (((a >> 58u64) & 3u64) as int) == (((n >> 58u64) & 1u64) as int) + (((n >> 59u64) & 1u64) as int),
        (((a >> 60u64) & 3u64) as int) == (((n >> 60u64) & 1u64) as int) + (((n >> 61u64) & 1u64) as int),
        (((a >> 62u64) & 3u64) as int) == (((n >> 62u64) & 1u64) as int) + (((n >> 63u64) & 1u64) as int),
{
}

/// After the second step, each 4-bit field holds the count of its bits.
proof fn lemma_swar_nibbles(a: u64, b: u64)
    by (bit_vector)
    requires
        b == (((a >> 2) & 0x3333_3333_3333_3333u64) + (a & 0x3333_3333_3333_3333u64)) as u64,
    ensures
        (((b >> 0u64) & 15u64) as int) == (((a >> 0u64) & 3u64) as int) + (((a >> 2u64) & 3u64) as int),
        (((b >> 4u64) & 15u64) as int) == (((a >> 4u64) & 3u64) as int) + (((a >> 6u64) & 3u64) as int),
        (((b >> 8u64) & 15u64) as int) == (((a >> 8u64) & 3u64) as int) + (((a >> 10u64) & 3u64) as int),
        (((b >> 12u64) & 15u64) as int) == (((a >> 12u64) & 3u64) as int) + (((a >> 14u64) & 3u64) as int),
        (((b >> 16u64) & 15u64) as int) == (((a >> 16u64) & 3u64) as int) + (((a >> 18u64) & 3u64) as int),
        (((b >> 20u64) & 15u64) as int) == (((a >> 20u64) & 3u64) as int) + (((a >> 22u64) & 3u64) as int),
        (((b >> 24u64) & 15u64) as int) == (((a >> 24u64) & 3u64) as int) + (((a >> 26u64) & 3u64) as int),
        (((b >> 28u64) & 15u64) as int) == (((a >> 28u64) & 3u64) as int) + (((a >> 30u64) & 3u64) as int),
        (((b >> 32u64) & 15u64) as int) == (((a >> 32u64) & 3u64) as int) + (((a >> 34u64) & 3u64) as int),
        (((b >> 36u64) & 15u64) as int) == (((a >> 36u64) & 3u64) as int) + (((a >> 38u64) & 3u64) as int),
        (((b >> 40u64) & 15u64) as int) == (((a >> 40u64) & 3u64) as int) + (((a >> 42u64) & 3u64) as int),
        (((b >> 44u64) & 15u64) as int) == (((a >> 44u64) & 3u64) as int) + (((a >> 46u64) & 3u64) as int),
        (((b >> 48u64) & 15u64) as int) == (((a >> 48u64) & 3u64) as int) + (((a >> 50u64) & 3u64) as int),
        (((b >> 52u64) & 15u64) as int) == (((a >> 52u64) & 3u64) as int) + (((a >> 54u64) & 3u64) as int),
        (((b >> 56u64) & 15u64) as int) == (((a >> 56u64) & 3u64) as int) + (((a >> 58u64) & 3u64) as int),
        (((b >> 60u64) & 15u64) as int) == (((a >> 60u64) & 3u64) as int) + (((a >> 62u64) & 3u64) as int),
{
}

/// After the third step, each byte holds the count of its bits.
proof fn lemma_swar_bytes(b: u64, c: u64)
    by (bit_vector)
    requires
        c == (((b >> 4) + b) as u64 & 0x0f0f_0f0f_0f0f_0f0fu64),
        (((b >> 0u64) & 15u64) as int) <= 4,(((b >> 4u64) & 15u64) as int) <= 4,(((b >> 8u64) & 15u64) as int) <= 4,(((b >> 12u64) & 15u64) as int) <= 4,(((b >> 16u64) & 15u64) as int) <= 4,(((b >> 20u64) & 15u64) as int) <= 4,(((b >> 24u64) & 15u64) as int) <= 4,(((b >> 28u64) & 15u64) as int) <= 4,(((b >> 32u64) & 15u64) as int) <= 4,(((b >> 36u64) & 15u64) as int) <= 4,(((b >> 40u64) & 15u64) as int) <= 4,(((b >> 44u64) & 15u64) as int) <= 4,(((b >> 48u64) & 15u64) as int) <= 4,(((b >> 52u64) & 15u64) as int) <= 4,(((b >> 56u64) & 15u64) as int) <= 4,(((b >> 60u64) & 15u64) as int) <= 4,
    ensures
        (((c >> 0u64) & 255u64) as int) == (((b >> 0u64) & 15u64) as int) + (((b >> 4u64) & 15u64) as int),
        (((c >> 8u64) & 255u64) as int) == (((b >> 8u64) & 15u64) as int) + (((b >> 12u64) & 15u64) as int),
        (((c >> 16u64) & 255u64) as int) == (((b >> 16u64) & 15u64) as int) + (((b >> 20u64) & 15u64) as int),
        (((c >> 24u64) & 255u64) as int) == (((b >> 24u64) & 15u64) as int) + (((b >> 28u64) & 15u64) as int),
        (((c >> 32u64) & 255u64) as int) == (((b >> 32u64) & 15u64) as int) + (((b >> 36u64) & 15u64) as int),
        (((c >> 40u64) & 255u64) as int) == (((b >> 40u64) & 15u64) as int) + (((b >> 44u64) & 15u64) as int),
        (((c >> 48u64) & 255u64) as int) == (((b >> 48u64) & 15u64) as int) + (((b >> 52u64) & 15u64) as int),
        (((c >> 56u64) & 255u64) as int) == (((b >> 56u64) & 15u64) as int) + (((b >> 60u64) & 15u64) as int),
{
}

/// The final folding steps add up the byte counts.
proof fn lemma_swar_fold(c: u64, d: u64, e: u64, f: u64)
    by (bit_vector)
    requires
        d == (c + (c >> 8)) as u64,
        e == (d + (d >> 16)) as u64,
        f == (e + (e >> 32)) as u64,
        (((c >> 0u64) & 255u64) as int) <= 8,
        (((c >> 8u64) & 255u64) as int) <= 8,
        (((c >> 16u64) & 255u64) as int) <= 8,
        (((c >> 24u64) & 255u64) as int) <= 8,
        (((c >> 32u64) & 255u64) as int) <= 8,
        (((c >> 40u64) & 255u64) as int) <= 8,
        (((c >> 48u64) & 255u64) as int) <= 8,
        (((c >> 56u64) & 255u64) as int) <= 8,
    ensures
        ((f & 0x7fu64) as int) == (((c >> 0u64) & 255u64) as int) + (((c >> 8u64) & 255u64) as int) + (((c >> 16u64) & 255u64) as int) + (((c >> 24u64) & 255u64) as int) + (((c >> 32u64) & 255u64) as int) + (((c >> 40u64) & 255u64) as int) + (((c >> 48u64) & 255u64) as int) + (((c >> 56u64) & 255u64) as int),
{
}

/// Fast 64-bit population count.
pub fn ones(n: u64) -> (r: u64)
    ensures
        r == bit_count(n, 64),
{
    let ghost a = (n - ((n >> 1) & 0x5555_5555_5555_5555u64)) as u64;
    let ghost b = (((a >> 2) & 0x3333_3333_3333_3333u64) + (a & 0x3333_3333_3333_3333u64)) as u64;
    let ghost c = (((b >> 4) + b) as u64 & 0x0f0f_0f0f_0f0f_0f0fu64);
    let ghost d = (c + (c >> 8)) as u64;
    let ghost e = (d + (d >> 16)) as u64;
    let ghost f = (e + (e >> 32)) as u64;
    proof {
        lemma_swar_no_overflow(n, a, b, c, d, e);
        lemma_swar_pairs(n, a);
        lemma_swar_nibbles(a, b);
        lemma_swar_bytes(b, c);
        lemma_swar_fold(c, d, e, f);
        lemma_bit_count_is_sum(n);
    }
    let mut n = n;
    n -= (n >> 1) & 0x5555_5555_5555_5555;
    n = ((n >> 2) & 0x3333_3333_3333_3333) + (n & 0x3333_3333_3333_3333);
    n = ((n >> 4) + n) & 0x0f0f_0f0f_0f0f_0f0f;
    n += n >> 8;
    n += n >> 16;
    n += n >> 32;
    n & 0x7f
}


/// Index of the most significant set bit of `n` (0 when `n` is 0 or 1).
pub open spec fn msb(n: u64) -> u64
    decreases n,
{
    if n <= 1 {
        0
    } else {
        proof {
            lemma_shr_one_decreases(n);
        }
        (1 + msb(n >> 1)) as u64
    }
}

pub proof fn lemma_shr_one_decreases(n: u64)
    by (bit_vector)
    requires
        n > 1,
    ensures
        n >> 1u64 < n,
        n >> 1u64 > 0,
        n >> 1u64 < 0x8000_0000_0000_0000u64,
{
}

proof fn lemma_shr_facts(n: u64, m: u64, k: u64)
    by (bit_vector)
    requires
        n > 1,
        m == n >> 1u64,
        k < 64,
    ensures
        k < 63 ==> m >> k == n >> (k + 1) as u64,
        m >> k == 1u64 ==> k < 63,
{
}

/// The most significant set bit of a nonzero number is the unique shift that
/// leaves exactly 1.
pub proof fn lemma_msb(n: u64)
    requires
        n > 0,
    ensures
        msb(n) < 64,
        n >> msb(n) == 1,
    decreases n,
{
    if n == 1 {
        assert(1u64 >> 0u64 == 1u64) by (bit_vector);
    } else {
        lemma_shr_one_decreases(n);
        let m = n >> 1u64;
        lemma_msb(m);
        lemma_shr_facts(n, m, msb(m));
    }
}

/// Smearing the most significant bit of `n` downwards and dropping the top
/// bit leaves a mask of the bits below the most significant bit.
proof fn lemma_smear(n: u64, k: u64)
    by (bit_vector)
    requires
        k < 64,
        n >> k == 1u64 || (n == 0u64 && k == 0u64),
    ensures
        ({
            let s1 = n | (n >> 1u64);
            let s2 = s1 | (s1 >> 2u64);
            let s3 = s2 | (s2 >> 4u64);
            let s4 = s3 | (s3 >> 8u64);
            let s5 = s4 | (s4 >> 16u64);
            let s6 = s5 | (s5 >> 32u64);
            s6 >> 1u64 == ((1u64 << k) - 1u64) as u64
        }),
{
}

proof fn lemma_low_mask_bit(k: u64, i: u64)
    by (bit_vector)
    requires
        k < 64,
        i < 64,
    ensures
        ((((1u64 << k) - 1u64) as u64) >> i) & 1u64 == (if i < k { 1u64 } else { 0u64 }),
{
}

proof fn lemma_bit_count_low_mask(k: u64, j: nat)
    requires
        k < 64,
        j <= 64,
    ensures
        bit_count(((1u64 << k) - 1u64) as u64, j) == (if j < k { j } else { k as nat }),
    decreases j,
{
    if j > 0 {
        lemma_bit_count_low_mask(k, (j - 1) as nat);
        lemma_low_mask_bit(k, (j - 1) as u64);
    }
}

/// Fast 64-bit floor base-2 log of a number.
///
/// Returns floor( log2( n ) ) when n > 0, 0 otherwise: the position of the
/// most significant set bit.
pub fn floor_log2(n: u64) -> (r: u64)
    ensures
        n == 0 ==> r == 0,
        n > 0 ==> r < 64 && n >> r == 1,
        r == msb(n),
{
    let mut n = n;
    let ghost n0 = n;
    n |= n >> 1;
    n |= n >> 2;
    n |= n >> 4;
    n |= n >> 8;
    n |= n >> 16;
    n |= n >> 32;
    proof {
        let k = msb(n0);
        if n0 > 0 {
            lemma_msb(n0);
        }
        lemma_smear(n0, k);
        lemma_bit_count_low_mask(k, 64);
    }
    ones(n >> 1)
}


proof fn lemma_shr_one_unique(x: u64, a: u64, b: u64)
    by (bit_vector)
    requires
        a < 64,
        b < 64,
        x >> a == 1u64,
        x >> b == 1u64,
    ensures
        a == b,
        x > 0,
{
}

/// Any shift that leaves exactly 1 is the most significant bit.
pub proof fn lemma_msb_unique(x: u64, j: u64)
    requires
        j < 64,
        x >> j == 1,
    ensures
        msb(x) == j,
{
    lemma_shr_one_unique(x, j, j);
    lemma_msb(x);
    lemma_shr_one_unique(x, msb(x), j);
}

proof fn lemma_ceil_parts(n: u64, k: u64, w1: u64, m0: u64, w2: u64, m: u64)
    by (bit_vector)
    requires
        k < 64,
        n >> k == 1u64 || (n == 0u64 && k == 0u64),
        w1 == (if n == 0u64 { 0xffff_ffff_ffff_ffffu64 } else { (n - 1u64) as u64 }),
        m0 == n & w1,
        w2 == (if m0 == 0u64 { 0xffff_ffff_ffff_ffffu64 } else { (m0 - 1u64) as u64 }),
        m == (m0 | !w2) >> 63u64,
    ensures
        m <= 1u64,
        n <= 1u64 ==> m == 0u64,
        n > 1u64 && m0 == 0u64 ==> m == 0u64 && k >= 1u64 && ((n - 1u64) as u64) >> ((k - 1u64) as u64) == 1u64,
        n > 1u64 && m0 != 0u64 ==> m == 1u64 && ((n - 1u64) as u64) >> k == 1u64,
{
}

/// Fast 64-bit ceiling base-2 log of a number.
///
/// Returns ceiling( log2( n ) ) when n > 0, 0 otherwise: 0 for 0 and 1, and
/// one more than the most significant bit of `n - 1` above that.
pub fn ceil_log2(n: u64) -> (r: u64)
    ensures
        n <= 1 ==> r == 0,
        n > 1 ==> r == msb((n - 1) as u64) + 1,
        r <= 64,
{
    let w1 = n.wrapping_sub(1);
    let mut m = n & w1;
    let ghost m0 = m;
    let w2 = m.wrapping_sub(1);
    m |= !w2;
    m >>= 63;

    let r = floor_log2(n);
    proof {
        lemma_ceil_parts(n, r, w1, m0, w2, m);
        if n > 1 {
            if m0 == 0 {
                lemma_msb_unique((n - 1) as u64, (r - 1) as u64);
            } else {
                lemma_msb_unique((n - 1) as u64, r);
            }
        }
    }
    r + m
}

/// The ceiling base-2 log is the floor base-2 log, plus one when `n` is
/// not 0 and not a power of 2 (when `n & (n - 1)` is not 0): the two agree
/// exactly for 0 and the powers of 2.
pub proof fn law_ceil_log2_from_floor(n: u64)
    ensures
        (if n <= 1 { 0 } else { msb((n - 1) as u64) + 1 }) == msb(n) + (if n > 1 && n & ((n - 1) as u64) != 0 {
            1int
        } else {
            0int
        }),
{
    let k = msb(n);
    if n > 0 {
        lemma_msb(n);
    } else {
        assert(msb(0u64) == 0) by {
            reveal_with_fuel(msb, 2);
        }
    }
    let w1: u64 = if n == 0 { 0xffff_ffff_ffff_ffffu64 } else { (n - 1) as u64 };
    let m0: u64 = n & w1;
    let w2: u64 = if m0 == 0 { 0xffff_ffff_ffff_ffffu64 } else { (m0 - 1) as u64 };
    let m: u64 = (m0 | !w2) >> 63u64;
    lemma_ceil_parts(n, k, w1, m0, w2, m);
    if n > 1 {
        if m0 == 0 {
            lemma_msb_unique((n - 1) as u64, (k - 1) as u64);
        } else {
            lemma_msb_unique((n - 1) as u64, k);
        }
    }
}

/// Bit `i` of `n`.
pub open spec fn bit(n: u64, i: u64) -> u64 {
    (n >> i) & 1
}

/// The result of the compaction steps.
spec fn compacted(n: u64) -> u64 {
    let n1 = ((n & 0x4444_4444_4444_4444u64) >> 1u64) | (n & 0x1111_1111_1111_1111u64);
    let n2 = ((n1 & 0x3030_3030_3030_3030u64) >> 2u64) | (n1 & 0x0303_0303_0303_0303u64);
    let n3 = ((n2 & 0x0f00_0f00_0f00_0f00u64) >> 4u64) | (n2 & 0x000f_000f_000f_000fu64);
    let n4 = ((n3 & 0x00ff_0000_00ff_0000u64) >> 8u64) | (n3 & 0x0000_00ff_0000_00ffu64);
    ((n4 & 0x0000_ffff_0000_0000u64) >> 16u64) | (n4 & 0x0000_0000_0000_ffffu64)
}

proof fn lemma_compacted_bit(n: u64, i: u64)
    by (bit_vector)
    requires
        i < 32,
    ensures
        (compacted(n) >> i) & 1u64 == (n >> (2u64 * i) as u64) & 1u64,
        compacted(n) >> 32u64 == 0u64,
{
}

/// Removes all even (1-based) bits and leaves the odd bits in the lower
/// 32-bits.
///
/// Given a 64-bit word 0xeoeoeoeoeoeoeoeo, where `e` is a 1-based even bit and
/// `o` is an odd bit, the function returns 0x00000000oooooooo. Each odd bit
/// maintains its relative order with the other bits.
pub fn compact_odd_bits(n: u64) -> (r: u64)
    ensures
        r >> 32 == 0,
        forall|i: u64| i < 32 ==> #[trigger] bit(r, i) == bit(n, (2 * i) as u64),
{
    let mut m = n;
    m = ((m & 0x4444_4444_4444_4444) >> 1) | (m & 0x1111_1111_1111_1111);
    m = ((m & 0x3030_3030_3030_3030) >> 2) | (m & 0x0303_0303_0303_0303);
    m = ((m & 0x0f00_0f00_0f00_0f00) >> 4) | (m & 0x000f_000f_000f_000f);
    m = ((m & 0x00ff_0000_00ff_0000) >> 8) | (m & 0x0000_00ff_0000_00ff);
    m = ((m & 0x0000_ffff_0000_0000) >> 16) | (m & 0x0000_0000_0000_ffff);
    proof {
        assert(m == compacted(n));
        assert forall|i: u64| i < 32 implies #[trigger] bit(m, i) == bit(n, (2 * i) as u64) by {
            lemma_compacted_bit(n, i);
        }
        lemma_compacted_bit(n, 0);
    }
    m
}

proof fn lemma_shr_one_bit(n: u64, i: u64)
    by (bit_vector)
    requires
        i < 32,
    ensures
        ((n >> 1u64) >> (2u64 * i) as u64) & 1u64 == (n >> (2u64 * i + 1u64) as u64) & 1u64,
{
}

/// Removes all odd (1-based) bits and leaves the even bits in the lower
/// 32-bits. See `compact_odd_bits`.
pub fn compact_even_bits(n: u64) -> (r: u64)
    ensures
        r >> 32 == 0,
        forall|i: u64| i < 32 ==> #[trigger] bit(r, i) == bit(n, (2 * i + 1) as u64),
{
    let r = compact_odd_bits(n >> 1);
    proof {
        assert forall|i: u64| i < 32 implies #[trigger] bit(r, i) == bit(n, (2 * i + 1) as u64) by {
            lemma_shr_one_bit(n, i);
            assert(bit(r, i) == bit(n >> 1u64, (2 * i) as u64));
        }
    }
    r
}

} // verus!
