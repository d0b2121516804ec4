//! AArch64 bit manipulation utilities.
//!
//! The AArch64 routines are the 64-bit routines shared with other 64-bit
//! architectures.

use vstd::prelude::*;
use crate::arch::common64::bits::{bit_count, msb};

verus! {

/// Fast 64-bit population count.
pub fn ones(n: u64) -> (r: u64)
    ensures
        r == bit_count(n, 64),
{
    crate::arch::common64::bits::ones(n)
}

/// Fast 64-bit floor base-2 log of a number: the position of the most
/// significant set bit, 0 when `n` is 0.
pub fn floor_log2(n: u64) -> (r: u64)
    ensures
        n == 0 ==> r == 0,
        n > 0 ==> r < 64 && n >> r == 1,
        r == msb(n),
{
    crate::arch::common64::bits::floor_log2(n)
}

/// Fast 64-bit ceiling base-2 log of a number: 0 for 0 and 1, one more than
/// the most significant bit of `n - 1` otherwise.
pub fn ceil_log2(n: u64) -> (r: u64)
    ensures
        n <= 1 ==> r == 0,
        n > 1 ==> r == msb((n - 1) as u64) + 1,
        r <= 64,
{
    crate::arch::common64::bits::ceil_log2(n)
}

} // verus!
