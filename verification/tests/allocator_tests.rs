use sillos::kmem::buddy::BuddyAllocator;
use sillos::kmem::frame::{check_bases_round_up, BootInfoFrameAllocator};
use sillos::kmem::heap::{adjust_layout, bump, ListAllocator};
use sillos::memory::frame_alloc::{MemoryRegion, MEMMAP_RESERVED, MEMMAP_USABLE};

// ---------------------------------------------------------------------------
// Buddy allocator
// ---------------------------------------------------------------------------

fn buddy(start: usize, size: usize) -> BuddyAllocator {
    let mut allocator = BuddyAllocator::new();
    allocator.init(start, size);
    allocator
}

#[test]
fn buddy_without_heap_hands_out_nothing() {
    let mut allocator = BuddyAllocator::new();
    assert_eq!(allocator.allocate(64, 8), 0);
}

#[test]
fn buddy_splits_the_heap_block() {
    // A 4 KiB heap is one block; a 64-byte request splits it down.
    let mut allocator = buddy(0x10_0000, 4096);
    let a = allocator.allocate(64, 8);
    assert_eq!(a, 0x10_0000);
    // The buddy of the first block is the next one handed out.
    let b = allocator.allocate(64, 8);
    assert_eq!(b, 0x10_0040);
    let c = allocator.allocate(128, 8);
    assert_eq!(c, 0x10_0080);
}

#[test]
fn buddy_merges_freed_buddies() {
    let mut allocator = buddy(0x10_0000, 4096);
    let a = allocator.allocate(64, 8);
    let b = allocator.allocate(64, 8);
    allocator.deallocate(b, 64, 8);
    allocator.deallocate(a, 64, 8);
    // Everything merged back: the whole heap can be handed out again.
    assert_eq!(allocator.allocate(4096, 8), 0x10_0000);
    assert_eq!(allocator.allocate(64, 8), 0);
}

#[test]
fn buddy_rejects_oversized_requests() {
    let mut allocator = buddy(0x10_0000, 4096);
    assert_eq!(allocator.allocate(8192, 8), 0);
    // Larger than the largest block any heap can have.
    assert_eq!(allocator.allocate(1 << 31, 8), 0);
}

#[test]
fn buddy_alignment_takes_a_larger_block() {
    let mut allocator = buddy(0x10_0000, 4096);
    let a = allocator.allocate(8, 256);
    assert_eq!(a, 0x10_0000);
    let b = allocator.allocate(8, 8);
    assert_eq!(b, 0x10_0100);
}

#[test]
fn buddy_seeds_unaligned_heap_in_pieces() {
    // 4096 + 1024 bytes: one 4 KiB block and one 1 KiB block.
    let mut allocator = buddy(0x10_0000, 5120);
    assert_eq!(allocator.allocate(4096, 8), 0x10_0000);
    assert_eq!(allocator.allocate(1024, 8), 0x10_1000);
    assert_eq!(allocator.allocate(64, 8), 0);
}

#[test]
fn buddy_free_undoes_allocation() {
    let mut allocator = buddy(0x10_0000, 5120);
    let block = allocator.allocate(1024, 8);
    assert_eq!(block, 0x10_1000);
    allocator.deallocate(block, 1024, 8);
    // Its buddy was never free, so the block went back as it was.
    assert_eq!(allocator.allocate(1024, 8), 0x10_1000);
    assert_eq!(allocator.allocate(4096, 8), 0x10_0000);
}

#[test]
fn buddy_null_pointer_is_ignored() {
    let mut allocator = buddy(0x10_0000, 4096);
    allocator.deallocate(0, 64, 8);
    assert_eq!(allocator.allocate(4096, 8), 0x10_0000);
}

// ---------------------------------------------------------------------------
// Boot-time frame allocator
// ---------------------------------------------------------------------------

fn boot_map() -> Vec<MemoryRegion> {
    vec![
        MemoryRegion { base: 0, length: 0x1000, kind: MEMMAP_RESERVED },
        MemoryRegion { base: 0x1800, length: 0x2000, kind: MEMMAP_USABLE },
        MemoryRegion { base: 0x8000, length: 0x1000, kind: MEMMAP_RESERVED },
        MemoryRegion { base: 0x10000, length: 0x2000, kind: MEMMAP_USABLE },
    ]
}

#[test]
fn boot_frames_come_from_usable_regions_in_order() {
    let map = boot_map();
    let mut allocator = BootInfoFrameAllocator::new(&map);
    // 0x1800..0x3800 holds one whole frame, at 0x2000.
    assert_eq!(allocator.allocate_frame().map(|f| f.start_address().as_u64()), Some(0x2000));
    assert_eq!(allocator.allocate_frame().map(|f| f.start_address().as_u64()), Some(0x10000));
    assert_eq!(allocator.allocate_frame().map(|f| f.start_address().as_u64()), Some(0x11000));
    assert!(allocator.allocate_frame().is_none());
    assert!(allocator.allocate_frame().is_none());
}

#[test]
fn boot_usable_memory_sums_usable_lengths() {
    let map = boot_map();
    let allocator = BootInfoFrameAllocator::new(&map);
    assert_eq!(allocator.usable_memory(), 0x4000);
}

#[test]
fn boot_region_with_overflowing_end_stops_allocation() {
    assert!(check_bases_round_up(&boot_map()));
    assert!(!check_bases_round_up(&[MemoryRegion {
        base: u64::MAX - 10,
        length: 1,
        kind: MEMMAP_USABLE,
    }]));
    let map = vec![MemoryRegion { base: 0x1000, length: u64::MAX - 0x1000 + 1, kind: MEMMAP_USABLE }];
    let mut allocator = BootInfoFrameAllocator::new(&map);
    assert!(allocator.allocate_frame().is_none());
}

// ---------------------------------------------------------------------------
// Linked-list heap
// ---------------------------------------------------------------------------

#[test]
fn adjust_layout_makes_room_for_a_list_node() {
    assert_eq!(adjust_layout(1, 1), Some((16, 8)));
    assert_eq!(adjust_layout(100, 64), Some((100, 64)));
    assert_eq!(adjust_layout(usize::MAX, 8), None);
}

#[test]
fn list_heap_freed_block_is_reused() {
    let mut heap = ListAllocator::new();
    heap.init(0x1000, 0x1000);
    let a = heap.allocate(100, 8);
    assert_eq!(a, 0x1000);
    heap.deallocate(a, 100, 8);
    assert_eq!(heap.allocate(100, 8), a);
}

#[test]
fn list_heap_allocations_do_not_overlap() {
    let mut heap = ListAllocator::new();
    heap.init(0x1000, 0x1000);
    let a = heap.allocate(100, 8);
    let b = heap.allocate(100, 8);
    assert!(a != 0 && b != 0);
    assert!(a + 100 <= b || b + 100 <= a);
}

#[test]
fn list_heap_uninitialized_hands_out_nothing() {
    let mut heap = ListAllocator::new();
    assert_eq!(heap.allocate(8, 8), 0);
}

#[test]
fn list_heap_exhaustion_returns_null() {
    let mut heap = ListAllocator::new();
    heap.init(0x1000, 0x100);
    assert_eq!(heap.allocate(0x200, 8), 0);
}

#[test]
fn list_heap_live_blocks_stay_disjoint_across_frees() {
    let mut heap = ListAllocator::new();
    heap.init(0x1000, 0x1000);
    let a = heap.allocate(64, 8);
    let b = heap.allocate(64, 8);
    let c = heap.allocate(64, 8);
    heap.deallocate(b, 64, 8);
    let d = heap.allocate(32, 8);
    let e = heap.allocate(200, 16);
    let live = [(a, 64), (c, 64), (d, 32), (e, 200)];
    for (i, &(p, s)) in live.iter().enumerate() {
        assert!(p != 0);
        for &(q, t) in live.iter().skip(i + 1) {
            assert!(p + s <= q || q + t <= p, "blocks overlap");
        }
    }
}

#[test]
fn list_heap_fits_alignment_checks_every_region() {
    let mut heap = ListAllocator::new();
    heap.init(0x1000, 0x1000);
    assert!(heap.fits_alignment(4096));
    assert!(!heap.fits_alignment(usize::MAX - 0x10));
}

#[test]
fn bump_takes_aligned_bytes_until_the_arena_is_full() {
    assert_eq!(bump(0x1000, 0, 0x100, 8, 8), Some((0x1000, 8)));
    assert_eq!(bump(0x1000, 8, 0x100, 16, 16), Some((0x1010, 0x20)));
    assert_eq!(bump(0x1000, 0x20, 0x100, 0xe0, 8), Some((0x1020, 0x100)));
    assert_eq!(bump(0x1000, 0x100, 0x100, 1, 1), None);
    assert_eq!(bump(0x1000, 0x101, 0x100, 0, 1), None);
}
