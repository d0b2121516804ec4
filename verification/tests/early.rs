use ros_kernel::arch::aarch64::stacks::core_release_writes;
use ros_kernel::arch::arm::cpu::{Core, CoreEnableMethod};
use ros_kernel::early::atags::{read_atags, read_mem_atag, ATAG_CMDLINE, ATAG_CORE, ATAG_MEM, ATAG_NONE};
use ros_kernel::early::mini_uart::uart_recv;
use ros_kernel::early::ROSKernelInit;

#[test]
fn atags_mem_regions() {
    let mut init = ROSKernelInit::new();
    let words: Vec<u32> = vec![
        2, ATAG_CORE,
        4, ATAG_MEM, 0x1000_0000, 0x0,
        3, ATAG_CMDLINE, 0x6f6f66,
        4, ATAG_MEM, 0x2000_0000, 0x4000_0000,
        0, ATAG_NONE,
    ];
    assert!(read_atags(&mut init, &words));
    assert_eq!((init.memory_regions[0].base, init.memory_regions[0].size), (0, 0x1000_0000));
    assert_eq!((init.memory_regions[1].base, init.memory_regions[1].size), (0x4000_0000, 0x2000_0000));
    assert_eq!(init.memory_regions[2].size, 0);
}

#[test]
fn atags_rejects_malformed_lists() {
    let mut init = ROSKernelInit::new();
    // No CORE tag first.
    assert!(!read_atags(&mut init, &[4, ATAG_MEM, 0x1000, 0, 0, ATAG_NONE]));
    // The list runs past the words without a NONE tag.
    assert!(!read_atags(&mut init, &[2, ATAG_CORE, 4, ATAG_MEM, 0x1000]));
    // A tag shorter than its header.
    assert!(!read_atags(&mut init, &[2, ATAG_CORE, 1, ATAG_CMDLINE, 0, ATAG_NONE]));
    assert!(init.memory_regions.iter().all(|r| r.size == 0));
}

#[test]
fn mem_atag_fills_first_empty_region() {
    let mut init = ROSKernelInit::new();
    read_mem_atag(&mut init, 0x100, 0x10);
    read_mem_atag(&mut init, 0x200, 0x20);
    assert_eq!((init.memory_regions[0].base, init.memory_regions[0].size), (0x100, 0x10));
    assert_eq!((init.memory_regions[1].base, init.memory_regions[1].size), (0x200, 0x20));
    for _ in 0..20 {
        read_mem_atag(&mut init, 0x300, 0x30);
    }
    assert_eq!(init.memory_regions.len(), 16);
    assert_eq!((init.memory_regions[15].base, init.memory_regions[15].size), (0x300, 0x30));
}

#[test]
fn early_uart_receive() {
    assert_eq!(uart_recv(0x0, 0x41), None);
    assert_eq!(uart_recv(0x1, 0x41), Some(b'A'));
    assert_eq!(uart_recv(0x21, 0x1ff), Some(0xff));
}

#[test]
fn secondary_core_release() {
    let cores = vec![
        Core::make(0, b"arm,cortex-a53", CoreEnableMethod::SpinTable, 0xd8),
        Core::make(1, b"arm,cortex-a53", CoreEnableMethod::SpinTable, 0xe0),
        Core::make(2, b"arm,cortex-a53", CoreEnableMethod::SpinTable, 0xe8),
    ];
    let writes = core_release_writes(&cores, 0xffff_ff80_0000_0000, 0x8_0000);
    assert_eq!(
        writes,
        vec![(0xffff_ff80_0000_00e0, 0x8_0000), (0xffff_ff80_0000_00e8, 0x8_0000)]
    );
    assert!(core_release_writes(&cores[..1], 0, 0x8_0000).is_empty());
}
