use sillos::memory::frame_alloc::{
    BitmapFrameAllocator, FrameAllocator, MemoryRegion, PhysAddr, PhysFrame, MEMMAP_RESERVED,
    MEMMAP_USABLE,
};
use sillos::memory::page_alloc::{Page, VirtAddr};
use sillos::memory::page_table::{Mapper, PageTable, PageTableEntry, PageTableFlags};

const VA: u64 = 0xffff_9000_0000_0000;

fn frames() -> BitmapFrameAllocator {
    let memory_map = [
        MemoryRegion { base: 0, length: 0x10_0000, kind: MEMMAP_RESERVED },
        MemoryRegion { base: 0x10_0000, length: 0x100_0000, kind: MEMMAP_USABLE },
    ];
    BitmapFrameAllocator::new(&memory_map, 0).unwrap()
}

/// A PML4 whose entry for `VA` leads to the PDPT at `pdpt`.
fn pml4_with(pdpt: u64) -> PageTable {
    let mut table = PageTable::new();
    let index = ((VA >> 39) & 0x1ff) as usize;
    *table.entry_mut(index) = PageTableEntry(pdpt | 3);
    table
}

#[test]
fn first_unloaded_names_each_table_of_the_walk() {
    let mut fa = frames();
    let pml4 = fa.allocate().unwrap();
    let pdpt = fa.allocate().unwrap();
    let mut mapper = Mapper::new(pml4, 0);
    let va = VirtAddr::new(VA);
    assert_eq!(mapper.first_unloaded(va), Some(pml4.start_address().as_u64()));
    mapper.load_table(pml4.start_address().as_u64(), pml4_with(pdpt.start_address().as_u64()));
    assert_eq!(mapper.first_unloaded(va), Some(pdpt.start_address().as_u64()));
    mapper.load_table(pdpt.start_address().as_u64(), PageTable::new());
    assert_eq!(mapper.first_unloaded(va), None);
}

#[test]
fn loaded_tables_are_not_changed_until_written() {
    let mut fa = frames();
    let pml4 = fa.allocate().unwrap();
    let mut mapper = Mapper::new(pml4, 0);
    mapper.load_table(pml4.start_address().as_u64(), PageTable::new());
    assert!(mapper.take_changed().is_empty());
}

#[test]
fn take_changed_hands_out_every_table_a_map_wrote() {
    let mut fa = frames();
    let pml4 = fa.allocate().unwrap();
    let mut mapper = Mapper::new(pml4, 0);
    mapper.load_table(pml4.start_address().as_u64(), PageTable::new());
    let page = Page::from_start_address(VirtAddr::new(VA)).unwrap();
    let frame = mapper.map_new(page, PageTableFlags::WRITABLE(), &mut fa).unwrap();
    let changed = mapper.take_changed();
    let mut tables: Vec<u64> = changed.iter().map(|(a, _)| *a).collect();
    tables.sort();
    tables.dedup();
    // The PML4 and the three tables created below it.
    assert_eq!(tables.len(), 4);
    assert!(tables.contains(&pml4.start_address().as_u64()));
    // The page table handed out holds the new mapping.
    let pt_entry = changed
        .iter()
        .map(|(_, t)| t.entry(((VA >> 12) & 0x1ff) as usize).bits())
        .find(|bits| bits & 0x000f_ffff_ffff_f000 == frame.start_address().as_u64());
    assert!(pt_entry.is_some());
    // Everything is published now.
    assert!(mapper.take_changed().is_empty());
    assert_eq!(
        mapper.translate_page(page).map(|f| f.start_address().as_u64()),
        Some(frame.start_address().as_u64())
    );
}

#[test]
fn allocate_after_new_frames_lie_in_usable_memory() {
    let mut fa = frames();
    let frame = fa.allocate().unwrap();
    let start = frame.start_address().as_u64();
    assert!(start >= 0x10_0000 && start < 0x110_0000);
    let bitmap = fa.bitmap_start().as_u64();
    assert!(start < bitmap || start >= bitmap + fa.bitmap_size());
    let _ = PhysFrame::containing_address(PhysAddr::new(start));
}

#[test]
fn map_takes_one_frame_per_created_table() {
    let mut fa = frames();
    let pml4 = fa.allocate().unwrap();
    let data = fa.allocate().unwrap();
    let mut mapper = Mapper::new(pml4, 0);
    mapper.load_table(pml4.start_address().as_u64(), PageTable::new());
    let before = fa.free_frames();
    let page = Page::from_start_address(VirtAddr::new(VA)).unwrap();
    mapper.map(page, data, PageTableFlags::WRITABLE(), &mut fa).unwrap();
    assert_eq!(before - fa.free_frames(), 3);
    let next = Page::from_start_address(VirtAddr::new(VA + 0x1000)).unwrap();
    let other = fa.allocate().unwrap();
    let before = fa.free_frames();
    mapper.map(next, other, PageTableFlags::WRITABLE(), &mut fa).unwrap();
    assert_eq!(before, fa.free_frames());
}
