use ros_kernel::arch::aarch64::tables::{
    get_page_directory_virtual_base, get_page_directory_virtual_size, DynamicTableAllocator, LinearTableAllocator,
};
use ros_kernel::arch::aarch64::task::Task as Task64;
use ros_kernel::arch::arm::cpu::{CpuConfig, CPU_TYPE_LEN, MAX_CORES};
use ros_kernel::arch::arm::soc::{SocConfig, SocMapping};
use ros_kernel::arch::armv7::peripherals as v7_periph;
use ros_kernel::arch::armv7::task::Task as Task32;
use ros_kernel::early::{delay, ROSKernelInit, ROSMemoryRegion};
use ros_kernel::mm::slab_allocator::SlabAllocator;
use ros_kernel::mm::{kernel_allocate, kernel_map_page_local, kernel_unmap_page_local, MappingStrategy, TableAllocator};
use ros_kernel::peripherals::base::peripheral_delay;
use ros_kernel::mm::pager::Pager;
use ros_kernel::support::range::Range;

#[test]
fn kernel_init_parameters() {
    let r = ROSMemoryRegion::new();
    assert_eq!((r.base, r.size), (0, 0));
    let init = ROSKernelInit::new();
    assert_eq!(init.peripheral_base, 0);
    assert_eq!(init.memory_regions.len(), 16);
    assert!(init.memory_regions.iter().all(|r| r.base == 0 && r.size == 0));
}

#[test]
fn soc_config_capacity() {
    let mut config = SocConfig::new();
    assert!(config.get_mappings().is_empty());
    for i in 0..70 {
        config.add_mapping(SocMapping { soc_base: i, cpu_base: i, size: 1 });
    }
    assert_eq!(config.get_mappings().len(), 64);
    assert_eq!(config.get_mappings()[63].soc_base, 63);
}

#[test]
fn empty_cpu_config() {
    let config = CpuConfig::new();
    assert!(config.is_empty());
    assert_eq!(config.len(), 0);
    assert!(config.cores().is_empty());
    assert!(MAX_CORES == 512 && CPU_TYPE_LEN == 64);
}

#[test]
fn table_allocators() {
    let mut linear = LinearTableAllocator::new(0x8000);
    assert_eq!(linear.alloc_table(), 0x8000);
    assert_eq!(linear.alloc_table(), 0x9000);
    assert_eq!(linear.get_next_table(), 0xa000);
    let _dynamic = DynamicTableAllocator::new();
    assert_eq!(get_page_directory_virtual_base(), 0xffff_fe00_0000_0000);
    assert_eq!(get_page_directory_virtual_size(), 0x200_0000_0000);
    assert_eq!(v7_periph::init(0xc000_0000, 0, 0x5000, &ros_kernel::peripherals::soc::SocConfig::new()), 0x5000);
}

#[test]
fn tasks() {
    let mut t = Task64::new(3);
    assert_eq!(t.map_page_local(0xffff_0000_0000_0000, 0x5000), 0xffff_0000_0000_5000);
    t.unmap_page_local();
    assert_eq!(kernel_map_page_local(&mut t, 0x1000, 0x2000), 0x3000);
    kernel_unmap_page_local(&mut t);

    let mut t = Task32::new(1);
    assert_eq!(t.map_page_local(0xc000_0000, 0x1000), 0xc000_1000);
    assert_eq!(t.map_page_local(0xc000_0000, 0x3800_0000), 0xf800_0000);
    assert_eq!(t.map_page_local(0xc000_0000, 0x3800_5000), 0xf800_1000);
    t.unmap_page_local();
    assert_eq!(t.map_page_local(0xc000_0000, 0x3900_0000), 0xf800_1000);
    t.unmap_page_local();
    t.unmap_page_local();
    assert_eq!(t.map_page_local(0xc000_0000, 0x3900_0000), 0xf800_0000);
    t.unmap_page_local();
    t.unmap_page_local();
}

#[test]
fn misc_items() {
    assert!(SlabAllocator::<u64>::alloc_object().is_none());
    let _slab: SlabAllocator<u64> = SlabAllocator::new();
    assert_ne!(MappingStrategy::Compact, MappingStrategy::Granular);
    delay(10);
    peripheral_delay(10);
}

#[test]
fn dynamic_table_allocator() {
    let layout = [Range { base: 0x40_0000, size: 4096 * 64 }];
    let mut pager = Pager::init(&layout, 0xffff_0000_0000_0000);
    let mut tables = DynamicTableAllocator::new();
    let first = tables.alloc_table(&mut pager).unwrap();
    // The four pages come from the 4-page free block at page 56.
    assert_eq!(first, 0x40_0000 + 56 * 4096);
    for i in 1..4 {
        assert_eq!(tables.alloc_table(&mut pager), Some(first + i * 4096));
    }
    // A new block of four pages is taken from the pager: half of the 8-page
    // block at page 48.
    assert_eq!(tables.alloc_table(&mut pager), Some(0x40_0000 + 48 * 4096));
    let mut empty = Pager::init(&[], 0xffff_0000_0000_0000);
    assert_eq!(DynamicTableAllocator::new().alloc_table(&mut empty), None);
}

#[test]
fn dynamic_table_allocator_release() {
    let layout = [Range { base: 0x40_0000, size: 4096 * 64 }];
    let mut pager = Pager::init(&layout, 0xffff_0000_0000_0000);
    let mut tables = DynamicTableAllocator::new();
    let first = tables.alloc_table(&mut pager).unwrap();
    assert_eq!(first, 0x40_0000 + 56 * 4096);
    // The three unused pages go back to the pager, which then hands them
    // out again.
    tables.release(&mut pager);
    assert_eq!(tables.alloc_table(&mut pager), Some(0x40_0000 + 48 * 4096));
    let mut pages = Vec::new();
    while let Some((base, n, _)) = kernel_allocate(&mut pager, 1) {
        assert_eq!(n, 1);
        pages.push(base);
    }
    assert!(pages.contains(&(first + 4096)));
    assert!(pages.contains(&(first + 3 * 4096)));
    assert!(!pages.contains(&first));
}
