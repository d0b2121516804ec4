use ros_kernel::mm::page_allocator::{make_levels, BlockNode, PageAllocator};
use ros_kernel::mm::pager::Pager;
use ros_kernel::mm::{kernel_allocate, kernel_free};
use ros_kernel::support::range::Range;

const PAGE: usize = 4096;
const VB: usize = 0xffff_0000_0000_0000;
/// A 4 MiB aligned physical base, so that the block layout is predictable.
const BASE: usize = 0x40_0000;
const TEST_PAGES: usize = 2047;
const AREA_SIZE: usize = PAGE * (TEST_PAGES + 256) + 296;

fn make_allocator() -> PageAllocator {
    let avail = [Range { base: BASE, size: PAGE * TEST_PAGES }];
    PageAllocator::new(BASE, AREA_SIZE, VB, &avail).expect("allocator")
}

#[test]
fn test_size_calculation() {
    assert_eq!(PageAllocator::calc_metadata_size(PAGE * TEST_PAGES), 296);
    assert_eq!(PageAllocator::calc_metadata_size(0), 0);
    let (_, size) = make_levels(PAGE * TEST_PAGES);
    assert_eq!(size, 296);
}

#[test]
fn test_level_construction() {
    let (levels, _) = make_levels(PAGE * TEST_PAGES);
    let expected = [0, 16, 24, 28, 30, 31, 32, 33, 34, 35, 36];
    assert_eq!(levels.len(), expected.len());
    for (level, offset) in levels.iter().zip(expected.iter()) {
        assert_eq!(level.head, 0);
        assert_eq!(level.offset, *offset);
    }
}

#[test]
fn test_metadata_init() {
    // 2047 pages starting at a 4 MiB boundary are carved into one block of
    // each size, largest first: 1024 pages at 0, 512 at 1024, and so on.
    let mut allocator = make_allocator();
    // Each level's list holds exactly its one block, and the flag of the
    // block's buddy pair is set; a pair with no free block is clear.
    let mut offset = 0;
    for level in (0..11).rev() {
        let addr = VB + BASE + offset * PAGE;
        assert_eq!(allocator.free_blocks(level), vec![addr]);
        assert!(allocator.pair_flag(level, addr));
        offset += 1usize << level;
    }
    assert!(!allocator.pair_flag(0, VB + BASE));
    assert!(!allocator.pair_flag(3, VB + BASE + 1024 * PAGE));

    let mut offset = 0;
    for level in (0..11).rev() {
        let pages = 1usize << level;
        assert_eq!(allocator.allocate(pages), Some((BASE + offset * PAGE, pages)));
        offset += pages;
    }
    assert_eq!(offset, 2047);
    assert_eq!(allocator.allocate(1), None);
}

#[test]
fn test_allocate_rejects() {
    let mut allocator = make_allocator();
    assert_eq!(allocator.allocate(0), None);
    assert_eq!(allocator.allocate(2048), None);
    // A request is rounded up to a power of 2.
    assert_eq!(allocator.allocate(3), Some((BASE + 2040 * PAGE, 4)));
}

#[test]
fn test_split_and_merge() {
    let mut allocator = make_allocator();
    // Take the single pages until a 2-page block must be split.
    assert_eq!(allocator.allocate(1), Some((BASE + 2046 * PAGE, 1)));
    assert_eq!(allocator.allocate(1), Some((BASE + 2044 * PAGE, 1)));
    assert_eq!(allocator.allocate(1), Some((BASE + 2045 * PAGE, 1)));
    // Free the two halves of the split block: they merge back.
    allocator.free(BASE + 2044 * PAGE, 1);
    allocator.free(BASE + 2045 * PAGE, 1);
    assert_eq!(allocator.allocate(2), Some((BASE + 2044 * PAGE, 2)));
}

#[test]
fn test_free_undoes_allocate() {
    let mut allocator = make_allocator();
    let (base, pages) = allocator.allocate(1024).unwrap();
    assert_eq!((base, pages), (BASE, 1024));
    assert_eq!(allocator.allocate(1024), None);
    allocator.free(base, pages);
    assert_eq!(allocator.allocate(1024), Some((BASE, 1024)));
}

#[test]
fn test_free_ignores_zero() {
    let mut allocator = make_allocator();
    allocator.free(0, 1);
    allocator.free(BASE, 0);
    assert_eq!(allocator.allocate(1024), Some((BASE, 1024)));
}

#[test]
fn test_full_cycle() {
    let mut allocator = make_allocator();
    let mut blocks = Vec::new();
    while let Some(b) = allocator.allocate(1) {
        blocks.push(b);
    }
    assert_eq!(blocks.len(), 2047);
    for (base, pages) in blocks {
        allocator.free(base, pages);
    }
    let mut offset = 0;
    for level in (0..11).rev() {
        let pages = 1usize << level;
        let (base, n) = allocator.allocate(pages).unwrap();
        assert_eq!(n, pages);
        assert_eq!((base - BASE) % (pages * PAGE), 0);
        offset += n;
    }
    assert_eq!(offset, 2047);
    assert_eq!(allocator.allocate(1), None);
}

#[test]
fn test_new_rejects() {
    let avail = [Range { base: BASE, size: PAGE * 4 }];
    assert!(PageAllocator::new(0, AREA_SIZE, VB, &avail).is_none());
    assert!(PageAllocator::new(BASE, PAGE - 1, VB, &avail).is_none());
    assert!(PageAllocator::new(VB | BASE, AREA_SIZE, VB, &avail).is_none());
    assert!(PageAllocator::new(BASE, AREA_SIZE, VB, &[]).is_none());
    // The base and size are aligned down to pages.
    assert!(PageAllocator::new(BASE + 5, AREA_SIZE, VB, &avail).is_some());
}

#[test]
fn test_unaligned_area_start() {
    // An area starting 3 pages into a 4 MiB block: blocks are aligned on
    // physical multiples of their size, so no 1024-page block fits in the
    // 1024 available pages.
    let base = BASE + 3 * PAGE;
    let avail = [Range { base, size: PAGE * 1024 }];
    let mut allocator = PageAllocator::new(base, PAGE * 1100, VB, &avail).unwrap();
    assert_eq!(allocator.allocate(1024), None);
    assert_eq!(allocator.allocate(512), Some((0x60_0000, 512)));
    assert_eq!(allocator.allocate(256), Some((0x50_0000, 256)));
    assert_eq!(allocator.allocate(2), Some((0x80_0000, 2)));
    assert_eq!(allocator.allocate(4), Some((0x40_4000, 4)));
    assert_eq!(allocator.allocate(1), Some((base, 1)));
    // Every block handed out is aligned on its size.
    while let Some((b, n)) = allocator.allocate(1) {
        assert_eq!(b % (n * PAGE), 0);
    }
}

#[test]
fn test_skipped_ranges() {
    // A range outside the area is not used.
    let avail = [Range { base: BASE + PAGE * 4096, size: PAGE * 4 }, Range { base: BASE, size: PAGE * 2 }];
    let mut allocator = PageAllocator::new(BASE, PAGE * 16, VB, &avail).unwrap();
    assert_eq!(allocator.allocate(2), Some((BASE, 2)));
    assert_eq!(allocator.allocate(1), None);
}

#[test]
fn test_block_node_checksum() {
    let node = BlockNode::new(0x1000, 0x2000);
    assert_eq!(node.next, 0x1000);
    assert_eq!(node.prev, 0x2000);
    assert_eq!(node.checksum, BlockNode::calc_checksum(0x1000, 0x2000));
    assert_eq!(BlockNode::calc_checksum(0, 0), 0x09a5_2af1);
    assert_eq!(BlockNode::calc_checksum(1, 2), 0x09a5_2af1 ^ 3);
}

#[test]
fn test_pager() {
    let layout = [
        Range { base: BASE, size: PAGE / 2 },
        Range { base: BASE + 0x100_0000, size: PAGE * 64 },
    ];
    let mut pager = Pager::init(&layout, VB);
    // The first range is too small; the second serves 63 pages (one page
    // holds the metadata).
    let (base, pages, zone) = kernel_allocate(&mut pager, 32).unwrap();
    assert_eq!((base, pages, zone), (BASE + 0x100_0000, 32, 1));
    assert_eq!(kernel_allocate(&mut pager, 32), None);
    kernel_free(&mut pager, base, pages, zone);
    assert_eq!(kernel_allocate(&mut pager, 32), Some((BASE + 0x100_0000, 32, 1)));
}
