use ros_kernel::arch::aarch64::bits as a64;
use ros_kernel::arch::armv7::bits::floor_log2 as floor_log2_32;
use ros_kernel::arch::common64::bits::{compact_even_bits, compact_odd_bits};
use ros_kernel::support::bits::{align_down, align_up, least_significant_bit, xor_checksum};

#[test]
fn aarch64_bits() {
    assert_eq!(a64::ones(0b1011), 3);
    assert_eq!(a64::floor_log2(1 << 40), 40);
    assert_eq!(a64::ceil_log2((1 << 40) + 1), 41);
}

#[test]
fn armv7_floor_log2() {
    assert_eq!(floor_log2_32(0), 0);
    assert_eq!(floor_log2_32(1), 0);
    assert_eq!(floor_log2_32(0x8000_0000), 31);
    assert_eq!(floor_log2_32(1000), 9);
}

#[test]
fn compact_bits() {
    // Bits 0, 2 and 4 are the odd bits counting from 1: they compact to
    // 0b111.
    assert_eq!(compact_odd_bits(0b10101), 0b111);
    assert_eq!(compact_even_bits(0b10101), 0);
    assert_eq!(compact_even_bits(0b1010), 0b11);
    assert_eq!(compact_odd_bits(1 << 62), 1 << 31);
}

#[test]
fn alignment() {
    assert_eq!(align_down(0x1fff, 0x1000), 0x1000);
    assert_eq!(align_down(0x2000, 0x1000), 0x2000);
    assert_eq!(align_up(0x1001, 0x1000), 0x2000);
    assert_eq!(align_up(0x1000, 0x1000), 0x1000);
    assert_eq!(align_up(0, 16), 0);
}

#[test]
fn lowest_bit() {
    assert_eq!(least_significant_bit(0), 0);
    assert_eq!(least_significant_bit(0x1ed), 1);
    assert_eq!(least_significant_bit(0x1ee), 2);
    assert_eq!(least_significant_bit(0x200), 0x200);
}

#[test]
fn checksum() {
    assert_eq!(xor_checksum(&[]), 0x09a5_2af1);
    assert_eq!(xor_checksum(&[0x09a5_2af1]), 0);
    assert_eq!(xor_checksum(&[1, 2, 4]), 0x09a5_2af1 ^ 7);
}
