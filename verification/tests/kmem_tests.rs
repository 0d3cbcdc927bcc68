use sillos::memory::frame_alloc::{
    BitmapFrameAllocator, FrameAllocator, MemoryRegion, PhysFrame, MEMMAP_RESERVED, MEMMAP_USABLE,
};
use sillos::memory::page_alloc::{Page, VirtAddr};
use sillos::memory::page_table::{Mapper, MapperError, PageTable, PageTableFlags};

// The boot memory map of these tests: the first MiB reserved and 16 MiB of
// usable memory above it, with the tables reached through the usual direct
// map.
const HHDM_OFFSET: u64 = 0xffff_8000_0000_0000;

/// A mapper for the fresh PML4 of the test memory, whose table is empty.
fn new_mapper(kmem: &KernelMemory) -> Mapper {
    let mut mapper = Mapper::new(kmem.pml4_frame, kmem.hhdm_offset);
    mapper.load_table(kmem.pml4_frame.start_address().as_u64(), PageTable::new());
    mapper
}

struct KernelMemory {
    frames: BitmapFrameAllocator,
    pml4_frame: PhysFrame,
    hhdm_offset: u64,
}

fn init() -> KernelMemory {
    let memory_map = [
        MemoryRegion { base: 0, length: 0x10_0000, kind: MEMMAP_RESERVED },
        MemoryRegion { base: 0x10_0000, length: 0x100_0000, kind: MEMMAP_USABLE },
    ];
    let mut frames = BitmapFrameAllocator::new(&memory_map, HHDM_OFFSET).unwrap();
    let pml4_frame = frames.allocate().unwrap();
    KernelMemory { frames, pml4_frame, hhdm_offset: HHDM_OFFSET }
}

fn test_page() -> Page {
    Page::containing_address(VirtAddr::new(0xffff_9000_0000_0000))
}

#[test]
fn kmem_tests_test_frame_allocate_deallocate() {
    let mut kmem = init();
    let frame = kmem.frames.allocate().expect("failed to allocate physical frame");
    assert!(kmem.frames.deallocate(frame).is_ok(), "failed to deallocate physical frame");
}

#[test]
fn kmem_tests_test_frame_reuse() {
    let mut kmem = init();
    let first = kmem.frames.allocate().expect("failed to allocate first frame");
    assert!(kmem.frames.deallocate(first).is_ok(), "failed to deallocate first frame");
    let second = kmem.frames.allocate().expect("failed to reallocate frame");
    assert!(kmem.frames.deallocate(second).is_ok(), "failed to deallocate second frame");
}

#[test]
fn test_page_map() {
    let mut kmem = init();
    let mut mapper = new_mapper(&kmem);
    let frame = kmem.frames.allocate().expect("failed to allocate frame");
    let page = test_page();
    assert!(
        mapper
            .map(
                page,
                frame,
                PageTableFlags::WRITABLE() | PageTableFlags::NO_EXECUTE(),
                &mut kmem.frames,
            )
            .is_ok(),
        "failed to map page"
    );
    assert!(mapper.translate_page(page) == Some(frame), "page translation returned wrong frame");
    let unmapped = mapper.unmap(page).expect("failed to unmap page");
    assert!(unmapped.frame == frame, "unmap returned wrong frame");
    assert!(kmem.frames.deallocate(frame).is_ok(), "failed to return frame");
}

#[test]
fn test_double_map_rejected() {
    let mut kmem = init();
    let mut mapper = new_mapper(&kmem);
    let frame_a = kmem.frames.allocate().expect("failed to allocate frame A");
    let frame_b = kmem.frames.allocate().expect("failed to allocate frame B");
    let page = test_page();
    assert!(
        mapper.map(page, frame_a, PageTableFlags::WRITABLE(), &mut kmem.frames).is_ok(),
        "failed to map first frame"
    );
    let result = mapper.map(page, frame_b, PageTableFlags::WRITABLE(), &mut kmem.frames);
    assert!(result == Err(MapperError::PageAlreadyMapped), "double mapping was accepted");
    let unmapped = mapper.unmap(page).expect("failed to unmap page");
    assert!(unmapped.frame == frame_a, "unmap returned wrong frame");
    assert!(kmem.frames.deallocate(frame_a).is_ok(), "failed to free frame A");
    assert!(kmem.frames.deallocate(frame_b).is_ok(), "failed to free frame B");
}

#[test]
fn test_unmapped_translation() {
    let kmem = init();
    let mapper = new_mapper(&kmem);
    assert!(mapper.translate_page(test_page()).is_none(), "unmapped page translated");
}

#[test]
fn test_address_translation() {
    let mut kmem = init();
    let mut mapper = new_mapper(&kmem);
    let frame = kmem.frames.allocate().expect("failed to allocate frame");
    let page = test_page();
    assert!(
        mapper.map(page, frame, PageTableFlags::WRITABLE(), &mut kmem.frames).is_ok(),
        "failed to map page"
    );
    let offset = 1234u64;
    let virtual_address = VirtAddr::new(page.start_address().as_u64() + offset);
    let expected = frame.start_address().as_u64() + offset;
    let actual = mapper.translate(virtual_address).expect("address failed to translate").as_u64();
    assert!(actual == expected, "translated address is incorrect");
    let unmapped = mapper.unmap(page).expect("failed to unmap page");
    assert!(unmapped.frame == frame, "failed to unmap page");
    assert!(kmem.frames.deallocate(frame).is_ok(), "failed to free frame");
}

#[test]
fn test_multiple_page_mappings() {
    let mut kmem = init();
    let mut mapper = new_mapper(&kmem);
    const COUNT: usize = 8;
    let base = 0xffff_9000_0000_0000u64;
    let mut pages = [None; COUNT];
    let mut frames = [None; COUNT];
    for i in 0..COUNT {
        let frame = kmem.frames.allocate().expect("failed to allocate frame");
        let page = Page::containing_address(VirtAddr::new(base + (i as u64 * 0x1000)));
        assert!(
            mapper
                .map(
                    page,
                    frame,
                    PageTableFlags::WRITABLE() | PageTableFlags::NO_EXECUTE(),
                    &mut kmem.frames,
                )
                .is_ok(),
            "failed to map page"
        );
        pages[i] = Some(page);
        frames[i] = Some(frame);
    }
    for i in 0..COUNT {
        assert!(
            mapper.translate_page(pages[i].unwrap()) == frames[i],
            "page translated to wrong frame"
        );
    }
    for i in 0..COUNT {
        let result = mapper.unmap(pages[i].unwrap()).unwrap();
        kmem.frames.deallocate(result.frame).unwrap();
    }
}

#[test]
fn test_frame_allocator_integrity() {
    let kmem = init();
    assert!(kmem.frames.verify());
}
