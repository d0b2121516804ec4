use ros_kernel::arch::common64::bits::{ceil_log2, floor_log2, ones};

#[test]
fn floor_log2_values() {
    assert_eq!(floor_log2(0), 0);
    assert_eq!(floor_log2(1), 0);
    assert_eq!(floor_log2(4096), 12);
}

#[test]
fn ceil_log2_values() {
    assert_eq!(ceil_log2(0), 0);
    assert_eq!(ceil_log2(1), 0);
    assert_eq!(ceil_log2(5), 3);
}

#[test]
fn ones_values() {
    assert_eq!(ones(0), 0);
    assert_eq!(ones(0xff), 8);
    assert_eq!(ones(u64::MAX), 64);
}
