use sillos::memory::frame_alloc::{
    BitmapFrameAllocator, FrameAllocator, FrameError, MemoryRegion, PhysAddr, PhysFrame,
    FRAME_SIZE, MEMMAP_RESERVED, MEMMAP_USABLE,
};
use sillos::memory::page_alloc::{
    BitmapPageAllocator, Page, PageAllocatorError, PageRange, VirtAddr,
};
use sillos::memory::page_table::{
    is_canonical, Mapper, MapperError, PageTable, PageTableEntry, PageTableFlags, PAGE_TABLE_ENTRIES, PAGE_TABLE_SIZE,
};

// Page tests run well outside the kernel's normal virtual range.
const TEST_VA_BASE: u64 = 0xffff_9000_0000_0000;

fn test_page(index: u64) -> Page {
    Page::from_start_address(VirtAddr::new(TEST_VA_BASE + index * FRAME_SIZE))
        .expect("test address must be page aligned")
}

fn bitmap_storage() -> Vec<u64> {
    vec![0u64; 128]
}

fn allocator_over(base: u64, pages: u64) -> BitmapPageAllocator {
    let range = PageRange::new(VirtAddr::new(base), VirtAddr::new(base + pages * FRAME_SIZE))
        .unwrap();
    BitmapPageAllocator::new(range, bitmap_storage()).unwrap()
}

// ---------------------------------------------------------------------------
// Address tests
// ---------------------------------------------------------------------------

#[test]
fn test_phys_addr_creation() {
    let address = PhysAddr::new(0x1234_5000);
    assert!(address.as_u64() == 0x1234_5000, "PhysAddr returned incorrect value");
}

#[test]
fn test_phys_addr_alignment() {
    let aligned = PhysAddr::new(0x4000);
    assert!(aligned.is_aligned(), "aligned physical address reported unaligned");
    let unaligned = PhysAddr::new(0x4001);
    assert!(!unaligned.is_aligned(), "unaligned physical address reported aligned");
}

#[test]
fn test_phys_frame_creation() {
    let address = PhysAddr::new(0x8000);
    let frame = PhysFrame::from_start_address(address)
        .expect("failed to create aligned physical frame");
    assert!(
        frame.start_address().as_u64() == 0x8000,
        "physical frame has incorrect start address"
    );
}

#[test]
fn test_phys_frame_rejects_unaligned() {
    let address = PhysAddr::new(0x8001);
    assert!(
        PhysFrame::from_start_address(address).is_none(),
        "unaligned address produced a physical frame"
    );
}

#[test]
fn test_phys_frame_containing_address() {
    let frame = PhysFrame::containing_address(PhysAddr::new(0x8123));
    assert!(
        frame.start_address().as_u64() == 0x8000,
        "containing_address returned incorrect frame"
    );
}

#[test]
fn test_phys_frame_number() {
    let frame = PhysFrame::from_start_address(PhysAddr::new(0x20_000)).unwrap();
    assert!(frame.number() == 0x20, "incorrect physical frame number");
}

#[test]
fn test_virt_addr_alignment() {
    let aligned = VirtAddr::new(0x8000);
    assert!(aligned.is_aligned(), "aligned virtual address reported unaligned");
    let unaligned = VirtAddr::new(0x8001);
    assert!(!unaligned.is_aligned(), "unaligned virtual address reported aligned");
}

#[test]
fn test_virt_addr_align_down() {
    let address = VirtAddr::new(0x8fff);
    let aligned = address.align_down();
    assert!(aligned.as_u64() == 0x8000, "align_down returned incorrect address");
}

#[test]
fn test_virt_addr_align_up() {
    let address = VirtAddr::new(0x8001);
    let aligned = address.align_up().expect("align_up unexpectedly overflowed");
    assert!(aligned.as_u64() == 0x9000, "align_up returned incorrect address");
}

#[test]
fn test_page_creation() {
    let page = Page::from_start_address(VirtAddr::new(0x4000)).expect("failed to create page");
    assert!(page.start_address().as_u64() == 0x4000, "page has incorrect start address");
}

#[test]
fn test_page_rejects_unaligned() {
    assert!(
        Page::from_start_address(VirtAddr::new(0x4001)).is_none(),
        "unaligned address produced a page"
    );
}

#[test]
fn test_page_containing_address() {
    let page = Page::containing_address(VirtAddr::new(0x4fff));
    assert!(
        page.start_address().as_u64() == 0x4000,
        "containing_address returned incorrect page"
    );
}

#[test]
fn test_page_number() {
    let page = Page::from_start_address(VirtAddr::new(0x20_000)).unwrap();
    assert!(page.number() == 0x20, "incorrect page number");
}

// ---------------------------------------------------------------------------
// Page index tests
// ---------------------------------------------------------------------------

#[test]
fn test_page_pt_index() {
    let address = 0x1234_5000u64;
    let page = Page::from_start_address(VirtAddr::new(address)).unwrap();
    let expected = ((address >> 12) & 0x1ff) as usize;
    assert!(page.pt_index() == expected, "incorrect PT index");
}

#[test]
fn test_page_pd_index() {
    let address = 0x1234_5000u64;
    let page = Page::from_start_address(VirtAddr::new(address)).unwrap();
    let expected = ((address >> 21) & 0x1ff) as usize;
    assert!(page.pd_index() == expected, "incorrect PD index");
}

#[test]
fn test_page_pdpt_index() {
    let address = 0x1234_5000u64;
    let page = Page::from_start_address(VirtAddr::new(address)).unwrap();
    let expected = ((address >> 30) & 0x1ff) as usize;
    assert!(page.pdpt_index() == expected, "incorrect PDPT index");
}

#[test]
fn test_page_pml4_index() {
    let address = 0x1234_5000u64;
    let page = Page::from_start_address(VirtAddr::new(address)).unwrap();
    let expected = ((address >> 39) & 0x1ff) as usize;
    assert!(page.pml4_index() == expected, "incorrect PML4 index");
}

#[test]
fn test_page_index_boundaries() {
    let page = Page::from_start_address(VirtAddr::new(1u64 << 39)).unwrap();
    assert!(page.pml4_index() == 1, "PML4 boundary index incorrect");
}

// ---------------------------------------------------------------------------
// Canonical address tests
// ---------------------------------------------------------------------------

#[test]
fn test_canonical_zero() {
    assert!(is_canonical(0), "zero should be canonical");
}

#[test]
fn test_canonical_low_address() {
    assert!(is_canonical(0x0000_7fff_ffff_ffff), "highest low canonical address rejected");
}

#[test]
fn test_canonical_high_address() {
    assert!(is_canonical(0xffff_8000_0000_0000), "lowest high canonical address rejected");
}

#[test]
fn test_canonical_max_address() {
    assert!(is_canonical(0xffff_ffff_ffff_ffff), "maximum canonical address rejected");
}

#[test]
fn test_noncanonical_middle_address() {
    assert!(!is_canonical(0x0000_8000_0000_0000), "noncanonical lower address accepted");
}

#[test]
fn test_noncanonical_upper_address() {
    assert!(!is_canonical(0xffff_7fff_ffff_ffff), "noncanonical upper address accepted");
}

// ---------------------------------------------------------------------------
// Page range tests
// ---------------------------------------------------------------------------

#[test]
fn test_page_range_creation() {
    let range = PageRange::new(VirtAddr::new(0x10_0000), VirtAddr::new(0x12_0000))
        .expect("valid page range rejected");
    assert!(range.page_count() == 0x20, "incorrect page count");
}

#[test]
fn test_page_range_rejects_unaligned_start() {
    assert!(
        PageRange::new(VirtAddr::new(0x1001), VirtAddr::new(0x2000)).is_none(),
        "unaligned range accepted"
    );
}

#[test]
fn test_page_range_rejects_unaligned_end() {
    assert!(
        PageRange::new(VirtAddr::new(0x1000), VirtAddr::new(0x2001)).is_none(),
        "unaligned range accepted"
    );
}

#[test]
fn test_page_range_rejects_empty() {
    assert!(
        PageRange::new(VirtAddr::new(0x2000), VirtAddr::new(0x2000)).is_none(),
        "empty range accepted"
    );
}

#[test]
fn test_page_range_rejects_backwards() {
    assert!(
        PageRange::new(VirtAddr::new(0x3000), VirtAddr::new(0x2000)).is_none(),
        "backwards range accepted"
    );
}

#[test]
fn test_page_range_page_at() {
    let range = PageRange::new(VirtAddr::new(0x10_0000), VirtAddr::new(0x14_0000)).unwrap();
    let page = range.page_at(2).expect("page_at returned None");
    assert!(page.start_address().as_u64() == 0x10_2000, "page_at returned incorrect page");
}

#[test]
fn test_page_range_page_at_out_of_bounds() {
    let range = PageRange::new(VirtAddr::new(0x10_0000), VirtAddr::new(0x11_0000)).unwrap();
    assert!(range.page_at(range.page_count()).is_none(), "page_at accepted out-of-range index");
}

// ---------------------------------------------------------------------------
// Page table entry tests
// ---------------------------------------------------------------------------

#[test]
fn test_page_table_entry_empty() {
    let entry = PageTableEntry::empty();
    assert!(!entry.is_present(), "empty entry reported present");
    assert!(entry.frame().is_none(), "empty entry returned frame");
}

#[test]
fn test_page_table_entry_set() {
    let frame = PhysFrame::from_start_address(PhysAddr::new(0x1234_5000)).unwrap();
    let mut entry = PageTableEntry::empty();
    entry.set(frame, PageTableFlags::PRESENT() | PageTableFlags::WRITABLE());
    assert!(entry.is_present(), "entry not marked present");
    let returned = entry.frame().expect("entry did not contain frame");
    assert!(returned == frame, "entry returned wrong frame");
}

#[test]
fn test_page_table_entry_flags() {
    let frame = PhysFrame::from_start_address(PhysAddr::new(0x8000)).unwrap();
    let mut entry = PageTableEntry::empty();
    entry.set(
        frame,
        PageTableFlags::PRESENT() | PageTableFlags::WRITABLE() | PageTableFlags::NO_EXECUTE(),
    );
    let flags = entry.flags();
    assert!(flags.contains(PageTableFlags::PRESENT()), "PRESENT flag missing");
    assert!(flags.contains(PageTableFlags::WRITABLE()), "WRITABLE flag missing");
    assert!(flags.contains(PageTableFlags::NO_EXECUTE()), "NO_EXECUTE flag missing");
}

#[test]
fn test_page_table_entry_clear() {
    let frame = PhysFrame::from_start_address(PhysAddr::new(0x8000)).unwrap();
    let mut entry = PageTableEntry::empty();
    entry.set(frame, PageTableFlags::PRESENT());
    entry.clear();
    assert!(!entry.is_present(), "cleared entry remains present");
    assert!(entry.frame().is_none(), "cleared entry still contains frame");
}

// ---------------------------------------------------------------------------
// Page table tests
// ---------------------------------------------------------------------------

#[test]
fn test_page_table_size() {
    assert!(
        std::mem::size_of::<PageTable>() == PAGE_TABLE_SIZE,
        "PageTable is not exactly 4096 bytes"
    );
}

#[test]
fn test_page_table_entry_count() {
    assert!(PAGE_TABLE_ENTRIES == 512, "incorrect page table entry count");
}

#[test]
fn test_page_table_zero() {
    let mut table = PageTable::new();
    let frame = PhysFrame::from_start_address(PhysAddr::new(0x8000)).unwrap();
    table.entry_mut(42).set(frame, PageTableFlags::PRESENT());
    table.zero();
    for entry in table.entries() {
        assert!(!entry.is_present(), "PageTable::zero left present entry");
    }
}

#[test]
fn test_page_table_mutation() {
    let mut table = PageTable::new();
    let frame = PhysFrame::from_start_address(PhysAddr::new(0x9000)).unwrap();
    table.entry_mut(100).set(frame, PageTableFlags::PRESENT());
    assert!(table.entry(100).is_present(), "entry mutation failed");
    assert!(!table.entry(99).is_present(), "wrong entry modified");
}

// ---------------------------------------------------------------------------
// Page allocator tests
// ---------------------------------------------------------------------------

#[test]
fn test_page_allocator_creation() {
    let range = PageRange::new(
        VirtAddr::new(TEST_VA_BASE),
        VirtAddr::new(TEST_VA_BASE + 64 * FRAME_SIZE),
    )
    .unwrap();
    let allocator = BitmapPageAllocator::new(range, bitmap_storage());
    assert!(allocator.is_ok(), "page allocator creation failed");
}

#[test]
fn test_page_allocator_initial_state() {
    let allocator = allocator_over(TEST_VA_BASE + 0x10_0000, 16);
    assert!(allocator.total_pages() == 16, "incorrect total page count");
    assert!(allocator.free_pages() == 16, "allocator did not start fully free");
}

#[test]
fn test_page_allocator_allocate() {
    let base = TEST_VA_BASE + 0x20_0000;
    let mut allocator = allocator_over(base, 8);
    let page = allocator.allocate().expect("page allocation returned None");
    assert!(page.start_address().as_u64() == base, "allocator returned wrong first page");
    assert!(allocator.free_pages() == 7, "free page count incorrect");
}

#[test]
fn test_page_allocator_sequential_allocation() {
    let base = TEST_VA_BASE + 0x30_0000;
    let mut allocator = allocator_over(base, 16);
    for i in 0..16u64 {
        let page = allocator.allocate().expect("allocation unexpectedly exhausted");
        assert!(
            page.start_address().as_u64() == base + i * FRAME_SIZE,
            "allocator did not allocate sequential pages"
        );
    }
    assert!(allocator.allocate().is_none(), "allocator returned page after exhaustion");
}

#[test]
fn test_page_allocator_deallocate() {
    let base = TEST_VA_BASE + 0x40_0000;
    let mut allocator = allocator_over(base, 4);
    let page = allocator.allocate().unwrap();
    assert!(allocator.deallocate(page).is_ok(), "deallocation failed");
    assert!(allocator.free_pages() == 4, "free count incorrect after deallocation");
}

#[test]
fn test_page_allocator_reuse() {
    let base = TEST_VA_BASE + 0x50_0000;
    let mut allocator = allocator_over(base, 4);
    let first = allocator.allocate().unwrap();
    let _second = allocator.allocate().unwrap();
    allocator.deallocate(first).unwrap();
    let reused = allocator.allocate().unwrap();
    assert!(reused == first, "allocator did not reuse freed page");
}

#[test]
fn test_page_allocator_double_free() {
    let base = TEST_VA_BASE + 0x60_0000;
    let mut allocator = allocator_over(base, 4);
    let page = allocator.allocate().unwrap();
    allocator.deallocate(page).unwrap();
    assert!(
        matches!(allocator.deallocate(page), Err(PageAllocatorError::AlreadyFree)),
        "double free was not rejected"
    );
}

#[test]
fn test_page_allocator_invalid_page() {
    let base = TEST_VA_BASE + 0x70_0000;
    let mut allocator = allocator_over(base, 4);
    let outside = test_page(0);
    assert!(
        matches!(allocator.deallocate(outside), Err(PageAllocatorError::InvalidPage)),
        "invalid page was accepted"
    );
}

#[test]
fn test_page_allocator_reserve() {
    let base = TEST_VA_BASE + 0x80_0000;
    let mut allocator = allocator_over(base, 16);
    let reserve = PageRange::new(
        VirtAddr::new(base + 4 * FRAME_SIZE),
        VirtAddr::new(base + 8 * FRAME_SIZE),
    )
    .unwrap();
    allocator.reserve(reserve).unwrap();
    assert!(allocator.free_pages() == 12, "reserve produced incorrect free count");
}

// ---------------------------------------------------------------------------
// Kernel memory / frame allocator tests
//
// The boot memory map is a fixed one here: the first MiB reserved, 16 MiB of
// usable memory above it, and the page tables reached through a direct map
// at the usual higher-half offset.
// ---------------------------------------------------------------------------

const HHDM_OFFSET: u64 = 0xffff_8000_0000_0000;

struct KernelMemory {
    frames: BitmapFrameAllocator,
    pml4_frame: PhysFrame,
    hhdm_offset: u64,
}

fn get_kernel_memory() -> KernelMemory {
    let memory_map = [
        MemoryRegion { base: 0, length: 0x10_0000, kind: MEMMAP_RESERVED },
        MemoryRegion { base: 0x10_0000, length: 0x100_0000, kind: MEMMAP_USABLE },
    ];
    let mut frames = BitmapFrameAllocator::new(&memory_map, HHDM_OFFSET)
        .expect("frame allocator initialization failed");
    let pml4_frame = frames.allocate().expect("no frame for the PML4");
    KernelMemory { frames, pml4_frame, hhdm_offset: HHDM_OFFSET }
}

fn new_mapper(kmem: &KernelMemory) -> Mapper {
    // The PML4 is a fresh frame: its table is empty.
    let mut mapper = Mapper::new(kmem.pml4_frame, kmem.hhdm_offset);
    mapper.load_table(kmem.pml4_frame.start_address().as_u64(), PageTable::new());
    mapper
}

#[test]
fn test_kernel_memory_initializes() {
    let kmem = get_kernel_memory();
    assert!(kmem.frames.total_frames() != 0, "frame allocator contains zero frames");
    assert!(kmem.frames.free_frames() != 0, "frame allocator contains zero free frames");
}

#[test]
fn test_kernel_memory_has_valid_hhdm() {
    let kmem = get_kernel_memory();
    let _ = kmem.hhdm_offset;
}

#[test]
fn test_kernel_memory_has_valid_pml4() {
    let kmem = get_kernel_memory();
    assert!(kmem.pml4_frame.start_address().is_aligned(), "PML4 frame is not aligned");
}

#[test]
fn test_frame_allocate() {
    let mut kmem = get_kernel_memory();
    let before = kmem.frames.free_frames();
    let frame = kmem.frames.allocate().expect("frame allocation returned None");
    let after = kmem.frames.free_frames();
    assert!(after + 1 == before, "free frame count did not decrease");
    assert!(frame.start_address().is_aligned(), "allocated frame is not aligned");
    kmem.frames.deallocate(frame).unwrap();
}

#[test]
fn memory_tests_test_frame_allocate_deallocate() {
    let mut kmem = get_kernel_memory();
    let before = kmem.frames.free_frames();
    let frame = kmem.frames.allocate().expect("frame allocation failed");
    assert!(kmem.frames.deallocate(frame).is_ok(), "frame deallocation failed");
    assert!(
        kmem.frames.free_frames() == before,
        "free count did not return to original value"
    );
}

#[test]
fn memory_tests_test_frame_reuse() {
    let mut kmem = get_kernel_memory();
    let frame = kmem.frames.allocate().expect("frame allocation failed");
    assert!(kmem.frames.deallocate(frame).is_ok(), "frame deallocation failed");
    let reused = kmem.frames.allocate().expect("reallocation failed");
    assert!(reused == frame, "allocator did not reuse freed frame");
    kmem.frames.deallocate(reused).unwrap();
}

#[test]
fn test_frame_double_free() {
    let mut kmem = get_kernel_memory();
    let frame = kmem.frames.allocate().expect("frame allocation failed");
    kmem.frames.deallocate(frame).unwrap();
    assert!(
        matches!(kmem.frames.deallocate(frame), Err(FrameError::DoubleFree)),
        "double free was not rejected"
    );
}

#[test]
fn test_frame_is_free() {
    let mut kmem = get_kernel_memory();
    let frame = kmem.frames.allocate().expect("frame allocation failed");
    match kmem.frames.is_free(frame) {
        Ok(false) => {}
        Ok(true) => panic!("allocated frame reported free"),
        Err(_) => panic!("is_free failed"),
    }
    kmem.frames.deallocate(frame).unwrap();
    assert!(
        matches!(kmem.frames.is_free(frame), Ok(true)),
        "deallocated frame not reported free"
    );
}

// ---------------------------------------------------------------------------
// Page table flag tests
// ---------------------------------------------------------------------------

#[test]
fn test_page_flags_union() {
    let flags = PageTableFlags::PRESENT() | PageTableFlags::WRITABLE();
    assert!(flags.contains(PageTableFlags::PRESENT()), "PRESENT missing");
    assert!(flags.contains(PageTableFlags::WRITABLE()), "WRITABLE missing");
}

#[test]
fn test_page_flags_remove() {
    let flags = PageTableFlags::PRESENT() | PageTableFlags::WRITABLE();
    let flags = flags.remove(PageTableFlags::WRITABLE());
    assert!(!flags.contains(PageTableFlags::WRITABLE()), "WRITABLE was not removed");
    assert!(flags.contains(PageTableFlags::PRESENT()), "PRESENT was incorrectly removed");
}

#[test]
fn test_page_flags_empty() {
    assert!(PageTableFlags::EMPTY().bits() == 0, "EMPTY flags are not zero");
}

// ---------------------------------------------------------------------------
// Mapper tests
// ---------------------------------------------------------------------------

#[test]
fn test_mapper_translate_unmapped() {
    let kmem = get_kernel_memory();
    let mapper = new_mapper(&kmem);
    let page = test_page(0x1000);
    assert!(mapper.translate_page(page).is_none(), "unmapped address translated successfully");
}

#[test]
fn test_mapper_map_single_page() {
    let mut kmem = get_kernel_memory();
    let mut mapper = new_mapper(&kmem);
    let page = test_page(0x1100);
    let frame = kmem.frames.allocate().expect("frame allocation failed");
    match mapper.map(
        page,
        frame,
        PageTableFlags::WRITABLE() | PageTableFlags::NO_EXECUTE(),
        &mut kmem.frames,
    ) {
        Ok(()) => {}
        Err(MapperError::PageAlreadyMapped) => panic!("test page was already mapped"),
        Err(MapperError::HugePage) => panic!("test page is inside a huge-page mapping"),
        Err(MapperError::OutOfFrames) => panic!("mapper ran out of frames"),
        Err(_) => panic!("single-page mapping failed"),
    }
    assert!(
        mapper.translate_page(page) == Some(frame),
        "mapped page did not translate to its frame"
    );
    let result = mapper.unmap(page).expect("unmapping failed");
    assert!(result.frame == frame, "unmap returned wrong frame");
    kmem.frames.deallocate(frame).unwrap();
}

#[test]
fn test_mapper_map_and_unmap() {
    let mut kmem = get_kernel_memory();
    let mut mapper = new_mapper(&kmem);
    let page = test_page(0x1200);
    let frame = kmem.frames.allocate().expect("frame allocation failed");
    assert!(
        mapper.map(page, frame, PageTableFlags::WRITABLE(), &mut kmem.frames).is_ok(),
        "mapping failed"
    );
    assert!(mapper.translate_page(page) == Some(frame), "mapped page did not translate");
    let result = mapper.unmap(page).expect("unmapping failed");
    assert!(result.frame == frame, "unmap returned wrong frame");
    assert!(mapper.translate_page(page).is_none(), "page remained mapped after unmap");
    kmem.frames.deallocate(frame).unwrap();
}

#[test]
fn test_mapper_double_map_rejected() {
    let mut kmem = get_kernel_memory();
    let mut mapper = new_mapper(&kmem);
    let page = test_page(0x1300);
    let frame1 = kmem.frames.allocate().expect("frame allocation failed");
    let frame2 = kmem.frames.allocate().expect("second frame allocation failed");
    assert!(
        mapper.map(page, frame1, PageTableFlags::WRITABLE(), &mut kmem.frames).is_ok(),
        "first mapping failed"
    );
    assert!(
        matches!(
            mapper.map(page, frame2, PageTableFlags::WRITABLE(), &mut kmem.frames),
            Err(MapperError::PageAlreadyMapped)
        ),
        "double mapping was not rejected"
    );
    let result = mapper.unmap(page).expect("cleanup unmap failed");
    assert!(result.frame == frame1, "original frame was not preserved");
    kmem.frames.deallocate(frame1).unwrap();
    kmem.frames.deallocate(frame2).unwrap();
}

#[test]
fn test_mapper_unmap_unmapped_rejected() {
    let kmem = get_kernel_memory();
    let mut mapper = new_mapper(&kmem);
    let page = test_page(0x1400);
    assert!(
        matches!(mapper.unmap(page), Err(MapperError::PageNotMapped)),
        "unmapping unmapped page was not rejected"
    );
}

#[test]
fn test_mapper_translate_page() {
    let mut kmem = get_kernel_memory();
    let mut mapper = new_mapper(&kmem);
    let page = test_page(0x1500);
    let frame = kmem.frames.allocate().expect("frame allocation failed");
    assert!(
        mapper.map(page, frame, PageTableFlags::WRITABLE(), &mut kmem.frames).is_ok(),
        "mapping failed"
    );
    let translated = mapper.translate_page(page);
    let cleanup = mapper.unmap(page);
    let _ = kmem.frames.deallocate(frame);
    assert!(cleanup.is_ok(), "cleanup failed");
    match translated {
        Some(result) => assert!(result == frame, "translate_page returned wrong frame"),
        None => panic!("translate_page returned None"),
    }
}

#[test]
fn test_mapper_translate_offset() {
    let mut kmem = get_kernel_memory();
    let mut mapper = new_mapper(&kmem);
    let page = test_page(0x1600);
    let frame = kmem.frames.allocate().expect("frame allocation failed");
    assert!(
        mapper.map(page, frame, PageTableFlags::WRITABLE(), &mut kmem.frames).is_ok(),
        "mapping failed"
    );
    let offset = 0x321u64;
    let virtual_address = VirtAddr::new(page.start_address().as_u64() + offset);
    let physical = mapper.translate(virtual_address);
    let expected = frame.start_address().as_u64() + offset;
    let cleanup = mapper.unmap(page);
    let _ = kmem.frames.deallocate(frame);
    assert!(cleanup.is_ok(), "cleanup failed");
    match physical {
        Some(address) => {
            assert!(address.as_u64() == expected, "translated physical address incorrect")
        }
        None => panic!("offset translation returned None"),
    }
}

#[test]
fn test_8_page_mappings() {
    let mut kmem = get_kernel_memory();
    let mut mapper = new_mapper(&kmem);
    let base_index = 0x2000u64;
    let mut frames = [None; 8];
    for i in 0..8 {
        let frame = kmem.frames.allocate().expect("frame allocation failed");
        frames[i] = Some(frame);
        let page = test_page(base_index + i as u64);
        assert!(
            mapper.map(page, frame, PageTableFlags::WRITABLE(), &mut kmem.frames).is_ok(),
            "multi-page mapping failed"
        );
    }
    for i in 0..8 {
        let page = test_page(base_index + i as u64);
        let translated = mapper.translate_page(page).expect("multi-page translation failed");
        assert!(
            translated == frames[i].unwrap(),
            "multi-page translation returned wrong frame"
        );
    }
    for i in 0..8 {
        let page = test_page(base_index + i as u64);
        let result = mapper.unmap(page).expect("multi-page unmap failed");
        assert!(result.frame == frames[i].unwrap(), "multi-page unmap returned wrong frame");
        kmem.frames.deallocate(result.frame).unwrap();
    }
}

#[test]
fn test_32_page_mappings() {
    let mut kmem = get_kernel_memory();
    let mut mapper = new_mapper(&kmem);
    // All 32 pages (128 KiB) sit inside one 2 MiB area.
    let base = TEST_VA_BASE + 0x3000_0000;
    let mut pages = [None; 32];
    let mut frames = [None; 32];
    for i in 0..32 {
        let page = Page::from_start_address(VirtAddr::new(base + i as u64 * FRAME_SIZE)).unwrap();
        let frame = kmem.frames.allocate().expect("frame allocation failed");
        pages[i] = Some(page);
        frames[i] = Some(frame);
        assert!(
            mapper
                .map(
                    page,
                    frame,
                    PageTableFlags::WRITABLE() | PageTableFlags::NO_EXECUTE(),
                    &mut kmem.frames,
                )
                .is_ok(),
            "32-page mapping failed"
        );
    }
    for i in 0..32 {
        let page = pages[i].unwrap();
        let expected = frames[i].unwrap();
        match mapper.translate_page(page) {
            Some(frame) => assert!(frame == expected, "32-page translation returned wrong frame"),
            None => panic!("32-page translation failed"),
        }
    }
    for i in 0..32 {
        let page = pages[i].unwrap();
        let result = mapper.unmap(page).expect("32-page unmap failed");
        assert!(result.frame == frames[i].unwrap(), "32-page unmap returned wrong frame");
        assert!(kmem.frames.deallocate(result.frame).is_ok(), "failed to free frame");
    }
}

#[test]
fn test_translation_at_page_start() {
    let mut kmem = get_kernel_memory();
    let mut mapper = new_mapper(&kmem);
    let page = test_page(0x5000);
    let frame = kmem.frames.allocate().expect("frame allocation failed");
    assert!(
        mapper.map(page, frame, PageTableFlags::WRITABLE(), &mut kmem.frames).is_ok(),
        "mapping failed"
    );
    let result = mapper.translate(page.start_address());
    let cleanup = mapper.unmap(page);
    let _ = kmem.frames.deallocate(frame);
    assert!(cleanup.is_ok(), "cleanup failed");
    assert!(
        matches!(result, Some(address) if address.as_u64() == frame.start_address().as_u64()),
        "page-start translation incorrect"
    );
}

#[test]
fn test_translation_at_page_end() {
    let mut kmem = get_kernel_memory();
    let mut mapper = new_mapper(&kmem);
    let page = test_page(0x5100);
    let frame = kmem.frames.allocate().expect("frame allocation failed");
    assert!(
        mapper.map(page, frame, PageTableFlags::WRITABLE(), &mut kmem.frames).is_ok(),
        "mapping failed"
    );
    let address = VirtAddr::new(page.start_address().as_u64() + FRAME_SIZE - 1);
    let result = mapper.translate(address);
    let expected = frame.start_address().as_u64() + FRAME_SIZE - 1;
    let cleanup = mapper.unmap(page);
    let _ = kmem.frames.deallocate(frame);
    assert!(cleanup.is_ok(), "cleanup failed");
    assert!(
        matches!(result, Some(address) if address.as_u64() == expected),
        "last-byte translation incorrect"
    );
}

#[test]
fn test_allocate_many_frames() {
    let mut kmem = get_kernel_memory();
    let mut frames = [None; 64];
    for slot in frames.iter_mut() {
        *slot = Some(kmem.frames.allocate().expect("allocator exhausted too early"));
    }
    for i in 0..64 {
        for j in (i + 1)..64 {
            assert!(frames[i] != frames[j], "allocator returned duplicate frame");
        }
    }
    for frame in frames.iter().flatten() {
        assert!(kmem.frames.deallocate(*frame).is_ok(), "failed to free allocated frame");
    }
}

#[test]
fn test_frame_allocator_statistics() {
    let mut kmem = get_kernel_memory();
    let before = kmem.frames.stats();
    let frame = kmem.frames.allocate().expect("allocation failed");
    let after = kmem.frames.stats();
    assert!(after.total_frames == before.total_frames, "total frame count changed");
    assert!(after.free_frames + 1 == before.free_frames, "free frame count incorrect");
    assert!(
        after.allocated_frames == before.allocated_frames + 1,
        "allocated frame count incorrect"
    );
    kmem.frames.deallocate(frame).unwrap();
}

#[test]
fn test_mapper_flags_preserved() {
    let mut kmem = get_kernel_memory();
    let mut mapper = new_mapper(&kmem);
    let page = test_page(0x6100);
    let frame = kmem.frames.allocate().expect("frame allocation failed");
    let flags = PageTableFlags::WRITABLE() | PageTableFlags::NO_EXECUTE();
    assert!(mapper.map(page, frame, flags, &mut kmem.frames).is_ok(), "mapping failed");
    assert!(
        mapper.translate_page(page) == Some(frame),
        "mapped page could not be translated"
    );
    assert!(mapper.unmap(page).is_ok(), "unmapping failed");
    kmem.frames.deallocate(frame).unwrap();
}

#[test]
fn test_map_unmap_frame_accounting() {
    let mut kmem = get_kernel_memory();
    let mut mapper = new_mapper(&kmem);
    // The page tables above the test page already exist, as in a running
    // kernel: a neighbouring page was mapped and unmapped before.
    let neighbour_frame = kmem.frames.allocate().unwrap();
    mapper.map(test_page(0x6001), neighbour_frame, PageTableFlags::WRITABLE(), &mut kmem.frames).unwrap();
    mapper.unmap(test_page(0x6001)).unwrap();
    kmem.frames.deallocate(neighbour_frame).unwrap();

    let before = kmem.frames.free_frames();
    let page = test_page(0x6000);
    let frame = kmem.frames.allocate().expect("frame allocation failed");
    assert!(kmem.frames.free_frames() + 1 == before, "frame allocation accounting incorrect");
    assert!(
        mapper.map(page, frame, PageTableFlags::WRITABLE(), &mut kmem.frames).is_ok(),
        "mapping failed"
    );
    assert!(mapper.translate_page(page) == Some(frame), "mapped page did not translate");
    let result = mapper.unmap(page).expect("unmapping failed");
    assert!(result.frame == frame, "unmap returned wrong frame");
    kmem.frames.deallocate(result.frame).unwrap();
    assert!(
        kmem.frames.free_frames() == before,
        "frame accounting did not return to original state"
    );
}
