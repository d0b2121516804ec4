use ros_kernel::arch::aarch64::mm::{self as a64, TableLevel as L64, TableMemory as Mem64};
use ros_kernel::arch::aarch64::peripherals as a64_periph;
use ros_kernel::arch::armv7::mm::{self as v7, TableLevel as L32, TableMemory as Mem32};
use ros_kernel::peripherals::soc::{SocConfig, SocMapping};
use ros_kernel::support::range::Range;
use ros_kernel::arch::aarch64::stacks::{map_stacks, StackSetup};

const VB64: u64 = 0xffff_0000_0000_0000;

fn mem64(tables: usize) -> Mem64 {
    Mem64 { base: 0, words: vec![0u64; 512 * tables] }
}

#[test]
fn aarch64_descriptors() {
    assert_eq!(a64::get_table_entry_size(L64::Level1), 1 << 39);
    assert_eq!(a64::get_table_entry_size(L64::Level4), 4096);
    assert_eq!(a64::get_next_table(L64::Level3), Some(L64::Level4));
    assert_eq!(a64::get_next_table(L64::Level4), None);
    assert_eq!(a64::get_descriptor_index(0x0000_0080_4020_1000, L64::Level1), 1);
    assert_eq!(a64::get_descriptor_index(0x0000_0080_4020_1000, L64::Level2), 1);
    assert_eq!(a64::get_descriptor_index(0x0000_0080_4020_1000, L64::Level3), 1);
    assert_eq!(a64::get_descriptor_index(0x0000_0080_4020_1000, L64::Level4), 1);
    assert_eq!(a64::make_pointer_entry(0x1234_5678), 0x1234_5003);
    assert_eq!(a64::make_block_descriptor(0x4000_0000, false), 0x4000_0405);
    assert_eq!(a64::make_block_descriptor(0x4000_0000, true), 0x4000_0401);
    assert_eq!(a64::make_page_descriptor(0x5000, false), 0x5407);
    assert_eq!(a64::make_descriptor(L64::Level4, 0x5000, true), 0x5403);
    assert!(a64::is_descriptor_valid(1));
    assert!(!a64::is_descriptor_valid(2));
    assert_eq!(a64::get_phys_addr_from_descriptor(0xffff_0000_1234_5fff), 0x1234_5000);
}

#[test]
fn aarch64_direct_map_960_mib() {
    // The typical 0x0 - 0x3c000000 range of a 1 GiB Raspberry Pi 3: one
    // Level 2 table, one Level 3 table with 480 blocks of 2 MiB.
    let mut mem = mem64(3);
    let end = a64::direct_map_memory(VB64, 0, 0x1000, 0, 0x3c00_0000, false, &mut mem);
    assert_eq!(end, 0x3000);
    let l1 = a64::get_descriptor_index(VB64, L64::Level1) as usize;
    assert_eq!(mem.words[l1], 0x1003);
    let l2 = a64::get_descriptor_index(VB64, L64::Level2) as usize;
    assert_eq!(mem.words[512 + l2], 0x2003);
    for i in 0..480usize {
        assert_eq!(mem.words[1024 + i], ((i as u64) << 21) | 0x405);
    }
    assert_eq!(mem.words[1024 + 480], 0);
}

#[test]
fn aarch64_map_pages() {
    // Three pages: Level 1, 2 and 3 pointers, then three page descriptors.
    let mut mem = mem64(4);
    let end = a64::map_memory(VB64, 0, 0x1000, 0x20_0000, 0x8000_0000, 0x3000, true, &mut mem);
    assert_eq!(end, 0x4000);
    let idx = a64::get_descriptor_index(VB64 + 0x20_0000, L64::Level4) as usize;
    assert_eq!(idx, 0);
    assert_eq!(mem.words[1536], 0x8000_0403);
    assert_eq!(mem.words[1537], 0x8000_1403);
    assert_eq!(mem.words[1538], 0x8000_2403);
    assert_eq!(mem.words[1539], 0);
}

#[test]
fn aarch64_init_and_reuse() {
    // Two ranges sharing tables: the second reuses the pointers the first
    // created.
    let mut mem = mem64(3);
    let layout = [Range { base: 0, size: 0x20_0000 }, Range { base: 0x20_0000, size: 0x20_0000 }];
    let end = a64::init(VB64, 0, 0x1000, &layout, &mut mem);
    assert_eq!(end, 0x3000);
    assert_eq!(mem.words[1024], 0x405);
    assert_eq!(mem.words[1025], 0x20_0405);
}

#[test]
fn aarch64_peripherals() {
    let mut soc = SocConfig::new();
    soc.add_mapping(SocMapping { soc_base: 0x7e00_0000, cpu_base: 0x3f00_0000, size: 0x40_0000 });
    let mut mem = mem64(3);
    let end = a64_periph::init(VB64, 0, 0x1000, &soc, &mut mem);
    assert_eq!(end, 0x3000);
    let l3 = a64::get_descriptor_index(VB64 + 0x7e00_0000, L64::Level3) as usize;
    assert_eq!(mem.words[1024 + l3], 0x3f00_0401);
    assert_eq!(mem.words[1024 + l3 + 1], 0x3f20_0401);
}

fn mem32(tables: usize) -> Mem32 {
    Mem32 { base: 0, words: vec![0xffff_ffffu32; 1024 * tables] }
}

#[test]
fn armv7_descriptors() {
    assert_eq!(v7::get_first_table(0xc000_0000, 0xc010_0000), L32::Level2);
    assert_eq!(v7::get_first_table(0x8000_0000, 0x8010_0000), L32::Level1);
    assert_eq!(v7::get_first_table(0xc000_0000, 0x0010_0000), L32::Level1);
    assert_eq!(v7::get_descriptor_index(0x8000_0000, 0xc000_0000, L32::Level1), 2);
    assert_eq!(v7::get_descriptor_index(0xc000_0000, 0xc000_0000, L32::Level1), 6);
    assert_eq!(v7::get_descriptor_index(0, 0x0060_0000, L32::Level2), 6);
    assert_eq!(v7::get_descriptor_index(0, 0x0000_3000, L32::Level3), 6);
    assert_eq!(v7::make_pointer_entry(0x1234_5678), (0x1234_5003, 0));
    assert_eq!(v7::make_descriptor(L32::Level2, 0x20_0000, true), Some((0x20_0405, 0)));
    assert_eq!(v7::make_descriptor(L32::Level3, 0x3000, false), Some((0x3403, 0)));
    assert_eq!(v7::make_descriptor(L32::Level1, 0x3000, false), None);
    assert!(v7::is_pointer_entry(3, 0));
    assert!(!v7::is_pointer_entry(1, 0));
}

#[test]
fn armv7_direct_map_blocks() {
    // A 3/1 split: the kernel segment starts at its Level 2 table.
    let mut mem = Mem32 { base: 0, words: vec![0u32; 1024] };
    let end = v7::direct_map_memory(0xc000_0000, 0, 0x1000, 0, 0x40_0000, false, &mut mem);
    assert_eq!(end, 0x1000);
    assert_eq!(&mem.words[0..4], &[0x401, 0, 0x20_0401, 0]);
}

#[test]
fn armv7_map_pages_zeroes_new_table() {
    // A 2/2 split starts at Level 1. The new Level 2 and Level 3 tables are
    // zeroed before use.
    let mut mem = mem32(3);
    for w in mem.words[0..1024].iter_mut() {
        *w = 0;
    }
    let end = v7::map_memory(0x8000_0000, 0, 0x1000, 0x1000, 0x9000, 0x2000, true, &mut mem);
    assert_eq!(end, 0x3000);
    assert_eq!(&mem.words[0..2], &[0x1003, 0]);
    assert_eq!(&mem.words[1024..1026], &[0x2003, 0]);
    assert_eq!(&mem.words[2048..2054], &[0, 0, 0x9407, 0, 0xa407, 0]);
    assert_eq!(mem.words[2054], 0);
    assert_eq!(mem.words[1026], 0);
}

#[test]
fn armv7_direct_map_unaligned_range_with_pages() {
    // A 2 MiB range that starts one page into a 2 MiB block is mapped with
    // pages through cleared Level 3 tables, not with an unaligned block.
    let mut mem = mem32(3);
    for w in mem.words[0..1024].iter_mut() {
        *w = 0;
    }
    let end = v7::direct_map_memory(0xc000_0000, 0, 0x1000, 0x1000, 0x20_0000, false, &mut mem);
    assert_eq!(end, 0x3000);
    assert_eq!(&mem.words[0..4], &[0x1003, 0, 0x2003, 0]);
    assert_eq!(&mem.words[1024..1026], &[0, 0]);
    assert_eq!(&mem.words[1026..1028], &[0x1403, 0]);
    assert_eq!(mem.words[1024 + 1022], 0x1f_f403);
    assert_eq!(&mem.words[2048..2051], &[0x20_0403, 0, 0]);
}

#[test]
fn aarch64_soc_direct_mappings() {
    let mut soc = ros_kernel::arch::arm::soc::SocConfig::new();
    soc.add_mapping(ros_kernel::arch::arm::soc::SocMapping { soc_base: 0x7e00_0000, cpu_base: 0x3f00_0000, size: 0x40_0000 });
    let mut mem = mem64(3);
    let end = a64_periph::init_soc_mappings(VB64, 0, 0x1000, &soc, &mut mem);
    assert_eq!(end, 0x3000);
    let l3 = a64::get_descriptor_index(VB64 + 0x3f00_0000, L64::Level3) as usize;
    assert_eq!(mem.words[1024 + l3], 0x3f00_0401);
    assert_eq!(mem.words[1024 + l3 + 1], 0x3f20_0401);
}

#[test]
fn aarch64_stack_regions() {
    let r = ros_kernel::arch::aarch64::stacks::stack_regions(4, 2, VB64);
    assert_eq!(r, (0xffff_fdff_ffff_4000, 0xffff_fdff_fffe_8000, 0xfdff_fffe_8000, 0x200_0001_8000));
}

#[test]
fn aarch64_map_unaligned_range_with_pages() {
    // A 2 MiB range that starts one page into a 2 MiB block is mapped with
    // pages, not with a block at an unaligned address.
    let mut mem = Mem64 { base: 0, words: vec![0u64; 512 * 5] };
    // Words beyond the Level 1 table hold stale data: new tables are cleared.
    for w in mem.words.iter_mut().skip(512) {
        *w = u64::MAX;
    }
    let end = a64::map_memory(VB64, 0, 0x1000, 0x1000, 0x1000, 0x20_0000, false, &mut mem);
    assert_eq!(end, 0x5000);
    // Level 4 table at 0x3000: page 0 of the 2 MiB block is not mapped, page
    // 1 maps physical 0x1000.
    assert_eq!(mem.words[0x3000 / 8], 0);
    assert_eq!(mem.words[0x3000 / 8 + 1], 0x1407);
    assert_eq!(mem.words[0x3000 / 8 + 511], 0x1f_f407);
    // The last page of the range is in the next 2 MiB block, through a
    // second Level 4 table at 0x4000.
    assert_eq!(mem.words[0x4000 / 8], 0x20_0407);
    assert_eq!(mem.words[0x4000 / 8 + 1], 0);
}

#[test]
fn aarch64_map_stacks_in_turn() {
    let setups = [
        StackSetup { entry_addr: 0, entry_value: 0, virt: 0x1000, phys: 0x8000, size: 0x2000 },
        StackSetup { entry_addr: 0, entry_value: 0, virt: 0x4000, phys: 0xa000, size: 0x2000 },
    ];
    let mut mem = mem64(5);
    let end = map_stacks(VB64, 0, 0x1000, &setups, &mut mem);
    let mut expected = mem64(5);
    let e1 = a64::map_memory(VB64, 0, 0x1000, 0x1000, 0x8000, 0x2000, false, &mut expected);
    let e2 = a64::map_memory(VB64, 0, e1, 0x4000, 0xa000, 0x2000, false, &mut expected);
    assert_eq!(end, e2);
    assert_eq!(end, 0x4000);
    assert_eq!(mem.words, expected.words);
    // The second stack goes through the tables of the first: one Level 4
    // table holds both stacks' pages, and the guard page between them is
    // not mapped.
    assert_eq!(mem.words[0x3000 / 8 + 3], 0);
    assert_ne!(mem.words[0x3000 / 8 + 4], 0);
}

#[test]
fn checked_maps_report_tables_outside_memory() {
    // One table of memory: the Level 1 table fits, a new Level 2 table does
    // not.
    let mut mem = mem64(1);
    assert_eq!(a64::try_map_memory(VB64, 0, 0x1000, 0x1000, 0x1000, 0x1000, false, &mut mem), None);
    let mut mem = mem64(1);
    assert_eq!(a64::try_direct_map_memory(VB64, 0, 0x1000, 0x1000, 0x1000, false, &mut mem), None);
    // With room for the tables, the checked map is the map.
    let mut mem = mem64(4);
    let mut expected = mem64(4);
    let e = a64::map_memory(VB64, 0, 0x1000, 0x1000, 0x1000, 0x1000, false, &mut expected);
    assert_eq!(a64::try_map_memory(VB64, 0, 0x1000, 0x1000, 0x1000, 0x1000, false, &mut mem), Some(e));
    assert_eq!(mem.words, expected.words);

    let mut mem = Mem32 { base: 0, words: vec![0u32; 1024] };
    assert_eq!(v7::try_map_memory(0x8000_0000, 0, 0x1000, 0x1000, 0x9000, 0x2000, true, &mut mem), None);
    assert_eq!(v7::try_direct_map_memory(0xc000_0000, 0, 0x1000, 0x4000_0000, 0x1000, false, &mut mem), None);
    let mut mem = Mem32 { base: 0, words: vec![0u32; 1024] };
    assert_eq!(v7::try_direct_map_memory(0xc000_0000, 0, 0x1000, 0, 0x40_0000, false, &mut mem), Some(0x1000));
    assert_eq!(&mem.words[0..4], &[0x401, 0, 0x20_0401, 0]);
}

#[test]
fn checked_init_maps_ranges_or_reports() {
    let layout = [Range { base: 0, size: 0x40_0000 }, Range { base: 0x4000_0000, size: 0x20_0000 }];
    let mut mem = mem64(4);
    let mut expected = mem64(4);
    let e = a64::init(VB64, 0, 0x1000, &layout, &mut expected);
    assert_eq!(a64::try_init(VB64, 0, 0x1000, &layout, &mut mem), Some(e));
    assert_eq!(mem.words, expected.words);
    // Without room for the second range's tables, the checked init reports it.
    let mut mem = mem64(3);
    assert_eq!(a64::try_init(VB64, 0, 0x1000, &layout, &mut mem), None);
    let mut soc = SocConfig::new();
    soc.add_mapping(SocMapping { soc_base: 0x7e00_0000, cpu_base: 0x3f00_0000, size: 0x40_0000 });
    let mut mem = mem64(1);
    assert_eq!(a64_periph::try_init(VB64, 0, 0x1000, &soc, &mut mem), None);
    let mut mem = mem64(3);
    let mut expected = mem64(3);
    let e = a64_periph::init(VB64, 0, 0x1000, &soc, &mut expected);
    assert_eq!(a64_periph::try_init(VB64, 0, 0x1000, &soc, &mut mem), Some(e));
    assert_eq!(mem.words, expected.words);
}
