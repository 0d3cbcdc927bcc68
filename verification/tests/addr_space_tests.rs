use sillos::memory::addr_space::{AddressSpaceError, KernelAddressSpace};
use sillos::memory::frame_alloc::{
    BitmapFrameAllocator, FrameAllocator, MemoryRegion, FRAME_SIZE, MEMMAP_USABLE,
};
use sillos::memory::page_alloc::{BitmapPageAllocator, PageRange, VirtAddr};
use sillos::memory::page_table::{Mapper, MapperError, PageTable, PageTableFlags};

const KERNEL_BASE: u64 = 0xffff_8000_0000_0000;

fn setup(pages: u64) -> (KernelAddressSpace, BitmapFrameAllocator) {
    let map = [MemoryRegion { base: 0x10_0000, length: 0x40_0000, kind: MEMMAP_USABLE }];
    let mut frames = BitmapFrameAllocator::new(&map, 0xffff_c000_0000_0000).unwrap();
    let pml4 = frames.allocate().unwrap();
    let range = PageRange::new(
        VirtAddr::new(KERNEL_BASE),
        VirtAddr::new(KERNEL_BASE + pages * FRAME_SIZE),
    )
    .unwrap();
    let page_allocator = BitmapPageAllocator::new(range, vec![0u64; 4]).unwrap();
    // The PML4 is a fresh frame: its table is empty.
    let mut mapper = Mapper::new(pml4, 0xffff_c000_0000_0000);
    mapper.load_table(pml4.start_address().as_u64(), PageTable::new());
    let space = KernelAddressSpace::new(page_allocator, mapper);
    (space, frames)
}

#[test]
fn allocated_page_is_mapped_and_translates() {
    let (mut space, mut frames) = setup(16);
    let page = space.allocate_page(&mut frames, PageTableFlags::WRITABLE()).unwrap();
    assert_eq!(page.start_address().as_u64(), KERNEL_BASE);
    assert_eq!(space.is_allocated(page), Ok(true));
    let physical = space.translate(VirtAddr::new(KERNEL_BASE + 0x10)).expect("page not mapped");
    assert_eq!(physical.as_u64() % FRAME_SIZE, 0x10);
}

#[test]
fn deallocated_page_is_unmapped_and_free() {
    let (mut space, mut frames) = setup(16);
    let free_before = frames.free_frames();
    let page = space.allocate_page(&mut frames, PageTableFlags::WRITABLE()).unwrap();
    space.deallocate_page(page, &mut frames).unwrap();
    assert_eq!(space.is_allocated(page), Ok(false));
    assert!(space.translate(page.start_address()).is_none());
    // The data frame came back; the page tables stay.
    assert_eq!(frames.free_frames() + 3, free_before);
    assert_eq!(
        space.deallocate_page(page, &mut frames),
        Err(AddressSpaceError::Mapper(MapperError::PageNotMapped))
    );
}

#[test]
fn allocated_pages_are_consecutive() {
    let (mut space, mut frames) = setup(16);
    let allocation = space.allocate_pages(4, &mut frames, PageTableFlags::WRITABLE()).unwrap();
    assert_eq!(allocation.page_count, 4);
    for i in 0..4 {
        let page = allocation.page_at(i).unwrap();
        assert_eq!(page.start_address().as_u64(), KERNEL_BASE + i as u64 * FRAME_SIZE);
        assert!(space.translate(page.start_address()).is_some());
    }
    assert!(allocation.page_at(4).is_none());
}

#[test]
fn too_many_pages_are_refused_without_change() {
    let (mut space, mut frames) = setup(4);
    let free_before = frames.free_frames();
    assert!(space.allocate_pages(8, &mut frames, PageTableFlags::WRITABLE()).is_err());
    assert_eq!(frames.free_frames(), free_before);
    let page = space.allocate_page(&mut frames, PageTableFlags::WRITABLE()).unwrap();
    assert_eq!(page.start_address().as_u64(), KERNEL_BASE);
}

#[test]
fn page_whose_tables_are_not_loaded_is_refused() {
    let map = [MemoryRegion { base: 0x10_0000, length: 0x40_0000, kind: MEMMAP_USABLE }];
    let mut frames = BitmapFrameAllocator::new(&map, 0).unwrap();
    let pml4 = frames.allocate().unwrap();
    let range = PageRange::new(VirtAddr::new(KERNEL_BASE), VirtAddr::new(KERNEL_BASE + 4 * FRAME_SIZE))
        .unwrap();
    let pages = BitmapPageAllocator::new(range, vec![0u64; 4]).unwrap();
    let mut space = KernelAddressSpace::new(pages, Mapper::new(pml4, 0));
    let free = frames.free_frames();
    assert!(matches!(
        space.allocate_page(&mut frames, PageTableFlags::WRITABLE()),
        Err(AddressSpaceError::Mapper(MapperError::InvalidPageTable))
    ));
    assert_eq!(frames.free_frames(), free);
    assert_eq!(space.pages.free_pages(), 4);
}
