//! x86-64 page-table entries, page tables and the four-level page-table mapper.

use vstd::prelude::*;
use std::collections::HashMap;
use crate::memory::bitmap::{count_free, is_lowest_free, lemma_count_free_update, lowest_free};
use crate::memory::frame_alloc::{
    PhysAddr, PhysFrame, FRAME_SIZE, BitmapFrameAllocator, FrameAllocator, lemma_align_down_mask,
};
use crate::memory::page_alloc::{Page, VirtAddr};

verus! {

pub const PAGE_TABLE_ENTRIES: usize = 512;

pub const PAGE_TABLE_SIZE: usize = 4096;

/// Bits 12..=51 of an entry: the physical address it points to.
pub const ADDRESS_MASK: u64 = 0x000f_ffff_ffff_f000;

/// Bits of an entry that hold flags: bits 0..=11 and the no-execute bit 63.
pub const FLAGS_MASK: u64 = 0x8000_0000_0000_0fff;

/// x86-64 page table entry flags.
#[derive(Clone, Copy, PartialEq, Eq, Structural, Debug)]
pub struct PageTableFlags(pub u64);

impl PageTableFlags {
    #[allow(non_snake_case)]
    pub fn EMPTY() -> (r: PageTableFlags)
        ensures
            r.0 == 0u64,
    {
        PageTableFlags(0)
    }

    #[allow(non_snake_case)]
    pub fn PRESENT() -> (r: PageTableFlags)
        ensures
            r.0 == 1u64,
    {
        PageTableFlags(1)
    }

    #[allow(non_snake_case)]
    pub fn WRITABLE() -> (r: PageTableFlags)
        ensures
            r.0 == 2u64,
    {
        PageTableFlags(2)
    }

    #[allow(non_snake_case)]
    pub fn USER_ACCESSIBLE() -> (r: PageTableFlags)
        ensures
            r.0 == 4u64,
    {
        PageTableFlags(4)
    }

    #[allow(non_snake_case)]
    pub fn WRITE_THROUGH() -> (r: PageTableFlags)
        ensures
            r.0 == 8u64,
    {
        PageTableFlags(8)
    }

    #[allow(non_snake_case)]
    pub fn NO_CACHE() -> (r: PageTableFlags)
        ensures
            r.0 == 16u64,
    {
        PageTableFlags(16)
    }

    #[allow(non_snake_case)]
    pub fn ACCESSED() -> (r: PageTableFlags)
        ensures
            r.0 == 32u64,
    {
        PageTableFlags(32)
    }

    #[allow(non_snake_case)]
    pub fn DIRTY() -> (r: PageTableFlags)
        ensures
            r.0 == 64u64,
    {
        PageTableFlags(64)
    }

    #[allow(non_snake_case)]
    pub fn HUGE_PAGE() -> (r: PageTableFlags)
        ensures
            r.0 == 128u64,
    {
        PageTableFlags(128)
    }

    #[allow(non_snake_case)]
    pub fn GLOBAL() -> (r: PageTableFlags)
        ensures
            r.0 == 256u64,
    {
        PageTableFlags(256)
    }

    #[allow(non_snake_case)]
    pub fn NO_EXECUTE() -> (r: PageTableFlags)
        ensures
            r.0 == 0x8000_0000_0000_0000u64,
    {
        PageTableFlags(0x8000_0000_0000_0000)
    }

    pub fn bits(self) -> (r: u64)
        ensures
            r == self.0,
    {
        self.0
    }

    /// Whether every flag of `other` is set in `self`.
    pub fn contains(self, other: Self) -> (r: bool)
        ensures
            r == (self.0 & other.0 == other.0),
    {
        self.0 & other.0 == other.0
    }

    pub fn union(self, other: Self) -> (r: Self)
        ensures
            r.0 == self.0 | other.0,
    {
        Self(self.0 | other.0)
    }

    pub fn remove(self, other: Self) -> (r: Self)
        ensures
            r.0 == self.0 & !other.0,
    {
        Self(self.0 & !other.0)
    }
}

impl core::ops::BitOr for PageTableFlags {
    type Output = Self;

    fn bitor(self, rhs: Self) -> (r: Self) {
        self.union(rhs)
    }
}

impl vstd::std_specs::ops::BitOrSpecImpl for PageTableFlags {
    open spec fn obeys_bitor_spec() -> bool {
        true
    }

    open spec fn bitor_req(self, rhs: Self) -> bool {
        true
    }

    open spec fn bitor_spec(self, rhs: Self) -> Self {
        PageTableFlags(self.0 | rhs.0)
    }
}

impl core::ops::BitAnd for PageTableFlags {
    type Output = Self;

    fn bitand(self, rhs: Self) -> (r: Self) {
        Self(self.0 & rhs.0)
    }
}

impl vstd::std_specs::ops::BitAndSpecImpl for PageTableFlags {
    open spec fn obeys_bitand_spec() -> bool {
        true
    }

    open spec fn bitand_req(self, rhs: Self) -> bool {
        true
    }

    open spec fn bitand_spec(self, rhs: Self) -> Self {
        PageTableFlags(self.0 & rhs.0)
    }
}

/// An x86-64 page-table entry.
///
/// Bits 12..=51 hold the physical address; the remaining bits hold
/// architecture-defined flags.
#[derive(Clone, Copy, PartialEq, Eq, Structural, Debug)]
pub struct PageTableEntry(pub u64);

impl PageTableEntry {
    /// Whether the present bit is set.
    pub open spec fn present(self) -> bool {
        self.0 & 1u64 != 0
    }

    /// Whether the huge-page bit is set.
    pub open spec fn huge(self) -> bool {
        self.0 & 128u64 == 128u64
    }

    /// The physical address the entry points to.
    pub open spec fn addr(self) -> u64 {
        self.0 & ADDRESS_MASK
    }

    pub fn empty() -> (r: Self)
        ensures
            r.0 == 0,
    {
        Self(0)
    }

    pub fn bits(self) -> (r: u64)
        ensures
            r == self.0,
    {
        self.0
    }

    pub fn is_present(self) -> (r: bool)
        ensures
            r == self.present(),
    {
        self.0 & PageTableFlags::PRESENT().bits() != 0
    }

    pub fn flags(self) -> (r: PageTableFlags)
        ensures
            r.0 == self.0 & FLAGS_MASK,
    {
        proof {
            lemma_constant_bits();
        }
        PageTableFlags(self.0 & (0x8000_0000_0000_0000 | 0x0000_0000_0000_0fff))
    }

    /// The frame the entry points to, if it is present.
    pub fn frame(self) -> (r: Option<PhysFrame>)
        ensures
            r == (if self.present() {
                Some(PhysFrame { start_address: PhysAddr(self.addr()) })
            } else {
                None
            }),
    {
        if !self.is_present() {
            return None;
        }
        let address = self.0 & 0x000f_ffff_ffff_f000;
        proof {
            let b = self.0;
            assert((b & 0x000f_ffff_ffff_f000u64) % 4096 == 0) by (bit_vector);
        }
        PhysFrame::from_start_address(PhysAddr::new(address))
    }

    /// Point the entry at `frame` with `flags`.
    pub fn set(&mut self, frame: PhysFrame, flags: PageTableFlags)
        ensures
            final(self).0 == (frame.start() & ADDRESS_MASK) | flags.0,
    {
        self.0 = (frame.start_address().as_u64() & 0x000f_ffff_ffff_f000) | flags.bits();
    }

    pub fn clear(&mut self)
        ensures
            final(self).0 == 0,
    {
        self.0 = 0;
    }
}

/// One 4 KiB x86-64 page table: a PML4, page-directory-pointer table, page
/// directory or page table.
pub struct PageTable {
    entries: [PageTableEntry; 512],
}

impl View for PageTable {
    type V = Seq<PageTableEntry>;

    closed spec fn view(&self) -> Seq<PageTableEntry> {
        self.entries@
    }
}

impl PageTable {
    /// A table of 512 empty entries.
    pub open spec fn spec_empty() -> Seq<PageTableEntry> {
        Seq::new(512, |i: int| PageTableEntry(0))
    }

    pub fn new() -> (r: Self)
        ensures
            r@ == Self::spec_empty(),
    {
        let r = Self { entries: [PageTableEntry(0); 512] };
        proof {
            assert(r@ =~= Self::spec_empty());
        }
        r
    }

    /// Clear every entry.
    pub fn zero(&mut self)
        ensures
            final(self)@ == Self::spec_empty(),
    {
        let mut i: usize = 0;
        while i < 512
            invariant
                0 <= i <= 512,
                self@.len() == 512,
                forall|j: int| 0 <= j < i ==> self@[j] == PageTableEntry(0),
            decreases 512 - i,
        {
            self.entries[i].clear();
            i = i + 1;
        }
        proof {
            assert(self@ =~= Self::spec_empty());
        }
    }

    pub fn entry(&self, index: usize) -> (r: &PageTableEntry)
        requires
            index < 512,
        ensures
            *r == self@[index as int],
    {
        &self.entries[index]
    }

    pub fn entry_mut(&mut self, index: usize) -> (r: &mut PageTableEntry)
        requires
            index < 512,
        ensures
            *r == old(self)@[index as int],
            final(self)@ == old(self)@.update(index as int, *final(r)),
    {
        &mut self.entries[index]
    }

    /// A copy of the table.
    pub fn copy(&self) -> (r: Self)
        ensures
            r@ == self@,
    {
        Self { entries: self.entries }
    }

    pub fn entries(&self) -> (r: &[PageTableEntry; 512])
        ensures
            r@ == self@,
    {
        &self.entries
    }

    pub fn entries_mut(&mut self) -> (r: &mut [PageTableEntry; 512])
        ensures
            r@ == old(self)@,
            final(self)@ == final(r)@,
    {
        &mut self.entries
    }
}

impl Default for PageTable {
    fn default() -> (r: Self)
        ensures
            r@ == Self::spec_empty(),
    {
        Self::new()
    }
}

#[derive(Debug, Clone, Copy, PartialEq, Eq, Structural)]
pub enum MapperError {
    PageAlreadyMapped,
    PageNotMapped,
    InvalidPageTable,
    InvalidFrame,
    OutOfFrames,
    HugePage,
    HhdmAddressOverflow,
}

#[derive(Debug, Clone, Copy)]
pub struct UnmapResult {
    pub frame: PhysFrame,
}

/// Page tables by frame: the table each frame holds, keyed by the frame's
/// start address.
pub type TableMemory = Map<u64, Seq<PageTableEntry>>;

/// The table in the frame at `addr`; memory that holds no table reads as
/// zeroes.
pub open spec fn table_of(mem: TableMemory, addr: u64) -> Seq<PageTableEntry> {
    if mem.contains_key(addr) {
        mem[addr]
    } else {
        PageTable::spec_empty()
    }
}

/// Memory after writing `entry` to entry `index` of the table at `addr`.
pub open spec fn set_entry(mem: TableMemory, addr: u64, index: int, entry: PageTableEntry) -> TableMemory {
    mem.insert(addr, table_of(mem, addr).update(index, entry))
}

/// Table index of a virtual address at `level` (4 = PML4 ... 1 = page table).
pub open spec fn table_index(va: u64, level: int) -> int {
    if level == 4 {
        ((va >> 39u64) & 0x1ffu64) as int
    } else if level == 3 {
        ((va >> 30u64) & 0x1ffu64) as int
    } else if level == 2 {
        ((va >> 21u64) & 0x1ffu64) as int
    } else {
        ((va >> 12u64) & 0x1ffu64) as int
    }
}

/// Whether `address` is canonical in a 48-bit virtual address space: bits
/// 63 through 47 are all clear or all set.
pub open spec fn spec_is_canonical(address: u64) -> bool {
    (address >> 47u64) == 0 || (address >> 47u64) == 0x1ffff
}

/// One step of building the walk: the entry at `index` of the table at
/// `parent` must be present and not a huge page; when it is absent a table
/// is taken from the lowest free frame of `frames`, zeroed and linked as
/// present and writable. Yields the memory, the frame allocation state and
/// the address of the next table.
pub open spec fn spec_create_step(
    mem: TableMemory,
    frames: Seq<bool>,
    parent: u64,
    index: int,
) -> Result<(TableMemory, Seq<bool>, u64), MapperError> {
    let entry = table_of(mem, parent)[index];
    if entry.present() {
        if entry.huge() {
            Err(MapperError::HugePage)
        } else {
            Ok((mem, frames, entry.addr()))
        }
    } else {
        match lowest_free(frames) {
            None => Err(MapperError::OutOfFrames),
            Some(n) => {
                let table = (n * 4096) as u64;
                let zeroed = mem.insert(table, PageTable::spec_empty());
                Ok(
                    (
                        set_entry(zeroed, parent, index, PageTableEntry((table & ADDRESS_MASK) | 3)),
                        frames.update(n, true),
                        table,
                    ),
                )
            },
        }
    }
}

/// The effect of mapping the page at `page` to the frame at `frame` with
/// `flags`, creating the intermediate tables that are missing: the result,
/// the memory and the frame allocation state afterwards. Tables created
/// before a failure stay linked.
pub open spec fn spec_map(
    mem: TableMemory,
    frames: Seq<bool>,
    pml4: u64,
    page: u64,
    frame: u64,
    flags: u64,
) -> (Result<(), MapperError>, TableMemory, Seq<bool>) {
    match spec_create_step(mem, frames, pml4, table_index(page, 4)) {
        Err(e) => (Err(e), mem, frames),
        Ok((m3, f3, pdpt)) => match spec_create_step(m3, f3, pdpt, table_index(page, 3)) {
            Err(e) => (Err(e), m3, f3),
            Ok((m2, f2, pd)) => match spec_create_step(m2, f2, pd, table_index(page, 2)) {
                Err(e) => (Err(e), m2, f2),
                Ok((m1, f1, pt)) => {
                    if table_of(m1, pt)[table_index(page, 1)].present() {
                        (Err(MapperError::PageAlreadyMapped), m1, f1)
                    } else {
                        (
                            Ok(()),
                            set_entry(
                                m1,
                                pt,
                                table_index(page, 1),
                                PageTableEntry((frame & ADDRESS_MASK) | (flags | 1)),
                            ),
                            f1,
                        )
                    }
                },
            },
        },
    }
}

/// The page table that holds the entry for the page at `page`, without
/// creating anything.
pub open spec fn spec_find_pte(mem: TableMemory, pml4: u64, page: u64) -> Result<u64, MapperError> {
    let e4 = table_of(mem, pml4)[table_index(page, 4)];
    if !e4.present() {
        Err(MapperError::PageNotMapped)
    } else {
        let e3 = table_of(mem, e4.addr())[table_index(page, 3)];
        if !e3.present() {
            Err(MapperError::PageNotMapped)
        } else if e3.huge() {
            Err(MapperError::HugePage)
        } else {
            let e2 = table_of(mem, e3.addr())[table_index(page, 2)];
            if !e2.present() {
                Err(MapperError::PageNotMapped)
            } else if e2.huge() {
                Err(MapperError::HugePage)
            } else {
                Ok(e2.addr())
            }
        }
    }
}

/// The effect of unmapping the page at `page`: the frame it was mapped to
/// and the memory afterwards.
pub open spec fn spec_unmap(mem: TableMemory, pml4: u64, page: u64) -> Result<(u64, TableMemory), MapperError> {
    match spec_find_pte(mem, pml4, page) {
        Err(e) => Err(e),
        Ok(pt) => {
            let e1 = table_of(mem, pt)[table_index(page, 1)];
            if !e1.present() {
                Err(MapperError::PageNotMapped)
            } else {
                Ok((e1.addr(), set_entry(mem, pt, table_index(page, 1), PageTableEntry(0))))
            }
        },
    }
}

/// The physical address that virtual address `va` translates to, through
/// 4 KiB pages only.
pub open spec fn spec_translate(mem: TableMemory, pml4: u64, va: u64) -> Option<u64> {
    if !spec_is_canonical(va) {
        None
    } else {
        let e4 = table_of(mem, pml4)[table_index(va, 4)];
        if !e4.present() {
            None
        } else {
            let e3 = table_of(mem, e4.addr())[table_index(va, 3)];
            if !e3.present() || e3.huge() {
                None
            } else {
                let e2 = table_of(mem, e3.addr())[table_index(va, 2)];
                if !e2.present() || e2.huge() {
                    None
                } else {
                    let e1 = table_of(mem, e2.addr())[table_index(va, 1)];
                    if !e1.present() {
                        None
                    } else {
                        Some((e1.addr() + va % 4096) as u64)
                    }
                }
            }
        }
    }
}

/// The effect of mapping the page at `page` to a newly allocated frame:
/// the lowest free frame is taken and, when the mapping fails, given back.
/// Yields the frame's address on success.
pub open spec fn spec_map_new(
    mem: TableMemory,
    frames: Seq<bool>,
    pml4: u64,
    page: u64,
    flags: u64,
) -> (Result<u64, MapperError>, TableMemory, Seq<bool>) {
    match lowest_free(frames) {
        None => (Err(MapperError::OutOfFrames), mem, frames),
        Some(n) => {
            let frame = (n * 4096) as u64;
            let (r, m, f) = spec_map(mem, frames.update(n, true), pml4, page, frame, flags);
            match r {
                Ok(_) => (Ok(frame), m, f),
                Err(e) => (Err(e), m, f.update(n, false)),
            }
        },
    }
}

/// A creation step takes at most one frame.
proof fn lemma_create_step_count(mem: TableMemory, frames: Seq<bool>, parent: u64, index: int)
    requires
        spec_create_step(mem, frames, parent, index) is Ok,
    ensures
        ({
            let f = spec_create_step(mem, frames, parent, index)->Ok_0.1;
            &&& f.len() == frames.len()
            &&& count_free(f) <= count_free(frames) <= count_free(f) + 1
        }),
{
    if !table_of(mem, parent)[index].present() {
        let n = lowest_free(frames)->Some_0;
        assert(is_lowest_free(frames, n)) by {
            let k = choose|k: int| #[trigger] is_lowest_free(frames, k);
        }
        lemma_count_free_update(frames, n, true);
    }
}

/// `map` takes frames from the allocator only for the intermediate tables
/// it creates: at most three, and it frees none.
pub proof fn law_map_takes_at_most_three_frames(
    mem: TableMemory,
    frames: Seq<bool>,
    pml4: u64,
    page: u64,
    frame: u64,
    flags: u64,
)
    ensures
        ({
            let f = spec_map(mem, frames, pml4, page, frame, flags).2;
            &&& f.len() == frames.len()
            &&& forall|i: int| 0 <= i < frames.len() && frames[i] ==> #[trigger] f[i]
            &&& count_free(f) <= count_free(frames) <= count_free(f) + 3
        }),
{
    lemma_map_frames(mem, frames, pml4, page, frame, flags);
    lemma_table_index_bounds(page);
    if let Ok((m3, f3, pdpt)) = spec_create_step(mem, frames, pml4, table_index(page, 4)) {
        lemma_create_step_count(mem, frames, pml4, table_index(page, 4));
        if let Ok((m2, f2, pd)) = spec_create_step(m3, f3, pdpt, table_index(page, 3)) {
            lemma_create_step_count(m3, f3, pdpt, table_index(page, 3));
            if let Ok((m1, f1, pt)) = spec_create_step(m2, f2, pd, table_index(page, 2)) {
                lemma_create_step_count(m2, f2, pd, table_index(page, 2));
            }
        }
    }
}

/// Building the walk only ever takes frames: every allocated frame stays
/// allocated.
proof fn lemma_create_step_frames(mem: TableMemory, frames: Seq<bool>, parent: u64, index: int)
    ensures
        spec_create_step(mem, frames, parent, index) matches Ok((m, f, next)) ==> f.len()
            == frames.len() && forall|i: int| 0 <= i < frames.len() && frames[i] ==> #[trigger] f[i],
{
}

/// `spec_map` keeps every allocated frame allocated.
pub proof fn lemma_map_frames(
    mem: TableMemory,
    frames: Seq<bool>,
    pml4: u64,
    page: u64,
    frame: u64,
    flags: u64,
)
    ensures
        ({
            let f = spec_map(mem, frames, pml4, page, frame, flags).2;
            &&& f.len() == frames.len()
            &&& forall|i: int| 0 <= i < frames.len() && frames[i] ==> #[trigger] f[i]
        }),
{
    lemma_create_step_frames(mem, frames, pml4, table_index(page, 4));
    if let Ok((m3, f3, pdpt)) = spec_create_step(mem, frames, pml4, table_index(page, 4)) {
        lemma_create_step_frames(m3, f3, pdpt, table_index(page, 3));
        if let Ok((m2, f2, pd)) = spec_create_step(m3, f3, pdpt, table_index(page, 3)) {
            lemma_create_step_frames(m2, f2, pd, table_index(page, 2));
        }
    }
}

/// The tables `(pdpt, pd, pt)` that the walk for the page at `page` passes
/// through once the missing ones have been created.
pub open spec fn spec_map_path(mem: TableMemory, frames: Seq<bool>, pml4: u64, page: u64) -> Option<
    (u64, u64, u64),
> {
    match spec_create_step(mem, frames, pml4, table_index(page, 4)) {
        Err(_) => None,
        Ok((m3, f3, pdpt)) => match spec_create_step(m3, f3, pdpt, table_index(page, 3)) {
            Err(_) => None,
            Ok((m2, f2, pd)) => match spec_create_step(m2, f2, pd, table_index(page, 2)) {
                Err(_) => None,
                Ok((m1, f1, pt)) => Some((pdpt, pd, pt)),
            },
        },
    }
}

/// Whether the four tables of a walk are distinct frames below 2^52, the
/// reach of an entry's address field.
pub open spec fn distinct_tables(pml4: u64, pdpt: u64, pd: u64, pt: u64) -> bool {
    &&& pml4 != pdpt && pml4 != pd && pml4 != pt
    &&& pdpt != pd && pdpt != pt && pd != pt
    &&& pdpt < 0x10_0000_0000_0000 && pd < 0x10_0000_0000_0000 && pt < 0x10_0000_0000_0000
}

/// Facts about the constant flag combinations.
proof fn lemma_constant_bits()
    by (bit_vector)
    ensures
        1u64 | 2u64 == 3u64,
        !(0u64 & 1u64 != 0),
        0x8000_0000_0000_0000u64 | 0x0000_0000_0000_0fffu64 == 0x8000_0000_0000_0fffu64,
{
}

/// The huge-page bit survives masking an entry down to its flag bits.
proof fn lemma_huge_flag(b: u64)
    by (bit_vector)
    ensures
        (b & 0x8000_0000_0000_0fffu64) & 128u64 == 128u64 <==> b & 128u64 == 128u64,
{
}

/// Every table index lies in `0..512`.
proof fn lemma_table_index_bounds(va: u64)
    ensures
        0 <= table_index(va, 4) < 512,
        0 <= table_index(va, 3) < 512,
        0 <= table_index(va, 2) < 512,
        0 <= table_index(va, 1) < 512,
{
    assert((va >> 39u64) & 0x1ffu64 < 512 && (va >> 30u64) & 0x1ffu64 < 512 && (va >> 21u64)
        & 0x1ffu64 < 512 && (va >> 12u64) & 0x1ffu64 < 512) by (bit_vector);
}

/// Bit facts about the entries the mapper writes.
proof fn lemma_link_entry_bits(table: u64)
    ensures
        PageTableEntry((table & ADDRESS_MASK) | 3).present(),
        !PageTableEntry((table & ADDRESS_MASK) | 3).huge(),
        PageTableEntry((table & ADDRESS_MASK) | 3).addr() == table & ADDRESS_MASK,
        table < 0x10_0000_0000_0000 && table % 4096 == 0 ==> table & ADDRESS_MASK == table,
{
    assert(((table & 0x000f_ffff_ffff_f000u64) | 3u64) & 1u64 != 0 && !(((table
        & 0x000f_ffff_ffff_f000u64) | 3u64) & 128u64 == 128u64) && ((table & 0x000f_ffff_ffff_f000u64)
        | 3u64) & 0x000f_ffff_ffff_f000u64 == table & 0x000f_ffff_ffff_f000u64 && (table
        < 0x10_0000_0000_0000u64 && table % 4096 == 0 ==> table & 0x000f_ffff_ffff_f000u64 == table))
        by (bit_vector);
}

/// Bit facts about the leaf entry `map` writes.
proof fn lemma_leaf_entry_bits(frame: u64, flags: u64)
    requires
        flags & ADDRESS_MASK == 0,
        frame < 0x10_0000_0000_0000,
        frame % 4096 == 0,
    ensures
        PageTableEntry((frame & ADDRESS_MASK) | (flags | 1)).present(),
        PageTableEntry((frame & ADDRESS_MASK) | (flags | 1)).addr() == frame,
{
    assert(((frame & 0x000f_ffff_ffff_f000u64) | (flags | 1u64)) & 1u64 != 0 && ((frame
        & 0x000f_ffff_ffff_f000u64) | (flags | 1u64)) & 0x000f_ffff_ffff_f000u64 == frame)
        by (bit_vector)
        requires
            flags & 0x000f_ffff_ffff_f000u64 == 0,
            frame < 0x10_0000_0000_0000u64,
            frame % 4096 == 0,
    ;
}

/// The empty entry is not present.
proof fn lemma_zero_entry_bits()
    ensures
        !PageTableEntry(0).present(),
{
    lemma_constant_bits();
}

/// What one creation step leaves behind: the parent's entry leads to the
/// next table, a new table is empty, and every other table is unchanged.
proof fn lemma_create_step(mem: TableMemory, frames: Seq<bool>, parent: u64, index: int)
    requires
        0 <= index < 512,
        spec_create_step(mem, frames, parent, index) is Ok,
        forall|a: u64| #[trigger] mem.contains_key(a) ==> mem[a].len() == 512,
        frames.len() * 4096 <= u64::MAX,
    ensures
        ({
            let (m, f, next) = spec_create_step(mem, frames, parent, index)->Ok_0;
            &&& forall|a: u64| #[trigger] m.contains_key(a) ==> m[a].len() == 512
            &&& f.len() == frames.len()
            &&& next % 4096 == 0 || table_of(mem, parent)[index].present()
            &&& table_of(m, parent)[index].present()
            &&& !table_of(m, parent)[index].huge()
            &&& (next < 0x10_0000_0000_0000 && next != parent ==> table_of(m, parent)[index].addr() == next)
            &&& forall|a: u64| a != parent && a != next ==> #[trigger] table_of(m, a) == table_of(mem, a)
            &&& (next != parent ==> table_of(m, next) == table_of(mem, next) || table_of(m, next)
                == PageTable::spec_empty())
            &&& (table_of(mem, parent)[index].present() ==> m == mem && f == frames)
        }),
{
    let entry = table_of(mem, parent)[index];
    if !entry.present() {
        let n = lowest_free(frames)->Some_0;
        let table = (n * 4096) as u64;
        lemma_link_entry_bits(table);
        let zeroed = mem.insert(table, PageTable::spec_empty());
        let m = set_entry(zeroed, parent, index, PageTableEntry((table & ADDRESS_MASK) | 3));
        assert(table % 4096 == 0);
        assert(table & ADDRESS_MASK == table & ADDRESS_MASK);
        assert forall|a: u64| #[trigger] m.contains_key(a) implies m[a].len() == 512 by {
            if a != parent && a != table {
                assert(mem.contains_key(a));
            }
        }
    }
}

/// The tables a successful `map` leaves on the walk for `page`: each level
/// leads to the next table of the path, and the page table holds the new
/// entry.
proof fn lemma_map_walk(
    mem: TableMemory,
    frames: Seq<bool>,
    pml4: u64,
    page: u64,
    frame: u64,
    flags: u64,
)
    requires
        forall|a: u64| #[trigger] mem.contains_key(a) ==> mem[a].len() == 512,
        frames.len() * 4096 <= u64::MAX,
        frame % 4096 == 0,
        frame < 0x10_0000_0000_0000,
        flags & ADDRESS_MASK == 0,
        spec_map(mem, frames, pml4, page, frame, flags).0 is Ok,
        spec_map_path(mem, frames, pml4, page) matches Some((pdpt, pd, pt)) && distinct_tables(
            pml4,
            pdpt,
            pd,
            pt,
        ),
    ensures
        ({
            let fin = spec_map(mem, frames, pml4, page, frame, flags).1;
            let (pdpt, pd, pt) = spec_map_path(mem, frames, pml4, page)->Some_0;
            let e4 = table_of(fin, pml4)[table_index(page, 4)];
            let e3 = table_of(fin, pdpt)[table_index(page, 3)];
            let e2 = table_of(fin, pd)[table_index(page, 2)];
            let e1 = table_of(fin, pt)[table_index(page, 1)];
            &&& forall|a: u64| #[trigger] fin.contains_key(a) ==> fin[a].len() == 512
            &&& e4.present() && !e4.huge() && e4.addr() == pdpt
            &&& e3.present() && !e3.huge() && e3.addr() == pd
            &&& e2.present() && !e2.huge() && e2.addr() == pt
            &&& e1.present() && e1.addr() == frame
            &&& e1 == PageTableEntry((frame & ADDRESS_MASK) | (flags | 1))
        }),
{
    let i4 = table_index(page, 4);
    let i3 = table_index(page, 3);
    let i2 = table_index(page, 2);
    let i1 = table_index(page, 1);
    assert(0 <= i4 < 512 && 0 <= i3 < 512 && 0 <= i2 < 512 && 0 <= i1 < 512) by {
        lemma_table_index_bounds(page);
    }
    let (m3, f3, pdpt) = spec_create_step(mem, frames, pml4, i4)->Ok_0;
    lemma_create_step(mem, frames, pml4, i4);
    let (m2, f2, pd) = spec_create_step(m3, f3, pdpt, i3)->Ok_0;
    lemma_create_step(m3, f3, pdpt, i3);
    let (m1, f1, pt) = spec_create_step(m2, f2, pd, i2)->Ok_0;
    lemma_create_step(m2, f2, pd, i2);
    let entry = PageTableEntry((frame & ADDRESS_MASK) | (flags | 1));
    let fin = set_entry(m1, pt, i1, entry);
    lemma_leaf_entry_bits(frame, flags);
    assert(table_of(fin, pml4) == table_of(m1, pml4));
    assert(table_of(fin, pdpt) == table_of(m1, pdpt));
    assert(table_of(fin, pd) == table_of(m1, pd));
    assert(table_of(fin, pt)[i1] == entry);
    assert(table_of(m1, pml4) == table_of(m3, pml4));
    assert(table_of(m1, pdpt) == table_of(m2, pdpt));
    assert forall|a: u64| #[trigger] fin.contains_key(a) implies fin[a].len() == 512 by {
        if a != pt {
            assert(m1.contains_key(a));
        }
    }
}

/// The walk for an address uses the same table indices as the walk for the
/// page that contains it.
proof fn lemma_same_page_indices(page: u64, va: u64)
    requires
        page % 4096 == 0,
        page <= va < page + 4096,
    ensures
        table_index(va, 4) == table_index(page, 4),
        table_index(va, 3) == table_index(page, 3),
        table_index(va, 2) == table_index(page, 2),
        table_index(va, 1) == table_index(page, 1),
        va % 4096 == va - page,
        spec_is_canonical(va) == spec_is_canonical(page),
{
    assert(page % 4096 == 0 && page <= va < page + 4096 ==> (va >> 39u64) & 0x1ffu64 == (page
        >> 39u64) & 0x1ffu64 && (va >> 30u64) & 0x1ffu64 == (page >> 30u64) & 0x1ffu64 && (va
        >> 21u64) & 0x1ffu64 == (page >> 21u64) & 0x1ffu64 && (va >> 12u64) & 0x1ffu64 == (page
        >> 12u64) & 0x1ffu64 && va >> 47u64 == page >> 47u64) by (bit_vector);
}

/// Mapping a page and then translating any address inside it yields the
/// frame it was mapped to, at the same offset: a successful `map` makes the
/// page reachable through 4 KiB tables.
///
/// It holds when the walk's four tables are distinct frames below 2^52,
/// the frame lies below 2^52 and the flags leave the address bits clear.
pub proof fn law_map_then_translate(
    mem: TableMemory,
    frames: Seq<bool>,
    pml4: u64,
    page: u64,
    frame: u64,
    flags: u64,
    va: u64,
)
    requires
        forall|a: u64| #[trigger] mem.contains_key(a) ==> mem[a].len() == 512,
        frames.len() * 4096 <= u64::MAX,
        page % 4096 == 0,
        frame % 4096 == 0,
        frame < 0x10_0000_0000_0000,
        flags & ADDRESS_MASK == 0,
        spec_is_canonical(page),
        page <= va < page + 4096,
        spec_map(mem, frames, pml4, page, frame, flags).0 is Ok,
        spec_map_path(mem, frames, pml4, page) matches Some((pdpt, pd, pt)) && distinct_tables(
            pml4,
            pdpt,
            pd,
            pt,
        ),
    ensures
        spec_translate(spec_map(mem, frames, pml4, page, frame, flags).1, pml4, va) == Some(
            (frame + (va - page)) as u64,
        ),
{
    lemma_map_walk(mem, frames, pml4, page, frame, flags);
    lemma_same_page_indices(page, va);
}

/// Mapping a page that is already mapped through 4 KiB tables fails with
/// `PageAlreadyMapped` and changes neither the tables nor the frames.
pub proof fn law_map_mapped_page_rejected(
    mem: TableMemory,
    frames: Seq<bool>,
    pml4: u64,
    page: u64,
    frame: u64,
    flags: u64,
)
    requires
        page % 4096 == 0,
        spec_translate(mem, pml4, page) is Some,
        !table_of(mem, pml4)[table_index(page, 4)].huge(),
    ensures
        spec_map(mem, frames, pml4, page, frame, flags) == (
            Err::<(), MapperError>(MapperError::PageAlreadyMapped),
            mem,
            frames,
        ),
{
}

/// Unmapping a page that was just mapped returns the frame it was mapped
/// to, after which no address in the page translates.
///
/// It holds under the same conditions as [`law_map_then_translate`].
pub proof fn law_map_then_unmap(
    mem: TableMemory,
    frames: Seq<bool>,
    pml4: u64,
    page: u64,
    frame: u64,
    flags: u64,
    va: u64,
)
    requires
        forall|a: u64| #[trigger] mem.contains_key(a) ==> mem[a].len() == 512,
        frames.len() * 4096 <= u64::MAX,
        page % 4096 == 0,
        frame % 4096 == 0,
        frame < 0x10_0000_0000_0000,
        flags & ADDRESS_MASK == 0,
        spec_is_canonical(page),
        page <= va < page + 4096,
        spec_map(mem, frames, pml4, page, frame, flags).0 is Ok,
        spec_map_path(mem, frames, pml4, page) matches Some((pdpt, pd, pt)) && distinct_tables(
            pml4,
            pdpt,
            pd,
            pt,
        ),
    ensures
        spec_unmap(spec_map(mem, frames, pml4, page, frame, flags).1, pml4, page) matches Ok(
            (f, after),
        ) && f == frame && spec_translate(after, pml4, va) is None,
{
    lemma_map_walk(mem, frames, pml4, page, frame, flags);
    lemma_same_page_indices(page, va);
    let mapped = spec_map(mem, frames, pml4, page, frame, flags).1;
    let (pdpt, pd, pt) = spec_map_path(mem, frames, pml4, page)->Some_0;
    let i1 = table_index(page, 1);
    lemma_table_index_bounds(page);
    assert(spec_find_pte(mapped, pml4, page) == Ok::<u64, MapperError>(pt));
    let after = set_entry(mapped, pt, i1, PageTableEntry(0));
    lemma_zero_entry_bits();
    assert(table_of(after, pml4) == table_of(mapped, pml4));
    assert(table_of(after, pdpt) == table_of(mapped, pdpt));
    assert(table_of(after, pd) == table_of(mapped, pd));
    assert(table_of(after, pt)[i1] == PageTableEntry(0));
}

/// A canonical page translates through 4 KiB tables exactly when it can be
/// unmapped.
pub proof fn law_unmap_exactly_mapped(mem: TableMemory, pml4: u64, page: u64)
    requires
        page % 4096 == 0,
        spec_is_canonical(page),
    ensures
        spec_unmap(mem, pml4, page) is Ok <==> spec_translate(mem, pml4, page) is Some,
        spec_unmap(mem, pml4, page) matches Ok((f, after)) ==> spec_translate(mem, pml4, page)
            == Some(f),
{
    assert(page % 4096 == 0);
}

/// Whether `levels` gives the level (4 = PML4 ... 1 = page table) of every
/// table reachable from the PML4 at `pml4`, with each table in a frame that
/// `frames` holds as allocated: the PML4 has level 4, and every present
/// entry of a table above level 1 that the walk follows leads to a table
/// one level lower. The frames lie below 2^52, the reach of an entry's
/// address field.
pub open spec fn table_levels(levels: Map<u64, int>, mem: TableMemory, pml4: u64, frames: Seq<bool>) -> bool {
    &&& levels.contains_key(pml4) && levels[pml4] == 4
    &&& frames.len() * 4096 <= 0x10_0000_0000_0000
    &&& forall|t: u64|
        #[trigger] levels.contains_key(t) ==> 1 <= levels[t] <= 4 && t % 4096 == 0 && t / 4096
            < frames.len() && frames[(t / 4096) as int]
    &&& forall|t: u64, i: int|
        levels.contains_key(t) && levels[t] >= 2 && 0 <= i < 512 && #[trigger] table_of(mem, t)[i].present()
            && (levels[t] == 4 || !table_of(mem, t)[i].huge()) ==> levels.contains_key(
            table_of(mem, t)[i].addr(),
        ) && levels[table_of(mem, t)[i].addr()] == levels[t] - 1
}

/// Whether every table reachable from the PML4 at `pml4`, the PML4
/// included, lies in a frame that `frames` holds as allocated, so that no
/// allocation can hand out a live table.
pub open spec fn tables_owned(mem: TableMemory, pml4: u64, frames: Seq<bool>) -> bool {
    exists|levels: Map<u64, int>| #[trigger] table_levels(levels, mem, pml4, frames)
}

/// Whether `mem2` keeps every present entry of the tables in `levels`.
pub open spec fn keeps_present(levels: Map<u64, int>, mem: TableMemory, mem2: TableMemory) -> bool {
    forall|t: u64, i: int|
        levels.contains_key(t) && 0 <= i < 512 && #[trigger] table_of(mem, t)[i].present() ==> table_of(
            mem2,
            t,
        )[i] == table_of(mem, t)[i]
}

/// Allocating more frames keeps the tables owned.
proof fn lemma_levels_more_frames(levels: Map<u64, int>, mem: TableMemory, pml4: u64, frames: Seq<bool>, n: int)
    requires
        table_levels(levels, mem, pml4, frames),
        0 <= n < frames.len(),
    ensures
        table_levels(levels, mem, pml4, frames.update(n, true)),
{
    let f2 = frames.update(n, true);
    assert forall|t: u64| #[trigger] levels.contains_key(t) implies 1 <= levels[t] <= 4 && t % 4096 == 0
        && t / 4096 < f2.len() && f2[(t / 4096) as int] by {
        assert(frames[(t / 4096) as int]);
    }
}

/// Freeing a frame that holds no table keeps the tables owned.
proof fn lemma_levels_free_frame(levels: Map<u64, int>, mem: TableMemory, pml4: u64, frames: Seq<bool>, n: int)
    requires
        table_levels(levels, mem, pml4, frames),
        0 <= n < frames.len(),
        forall|t: u64| #[trigger] levels.contains_key(t) ==> t / 4096 != n,
    ensures
        table_levels(levels, mem, pml4, frames.update(n, false)),
{
    let f2 = frames.update(n, false);
    assert forall|t: u64| #[trigger] levels.contains_key(t) implies 1 <= levels[t] <= 4 && t % 4096 == 0
        && t / 4096 < f2.len() && f2[(t / 4096) as int] by {
        assert(frames[(t / 4096) as int]);
    }
}

/// A creation step at a table of level `level >= 2` keeps the tables owned,
/// keeps every present entry, and leads to a table of level `level - 1`
/// whose frame was allocated before or is the frame it took.
proof fn lemma_create_step_owned(
    levels: Map<u64, int>,
    mem: TableMemory,
    frames: Seq<bool>,
    pml4: u64,
    parent: u64,
    index: int,
) -> (levels2: Map<u64, int>)
    requires
        table_levels(levels, mem, pml4, frames),
        levels.contains_key(parent),
        levels[parent] >= 2,
        0 <= index < 512,
        forall|a: u64| #[trigger] mem.contains_key(a) ==> mem[a].len() == 512,
        spec_create_step(mem, frames, parent, index) is Ok,
    ensures
        ({
            let (m, f, next) = spec_create_step(mem, frames, parent, index)->Ok_0;
            &&& table_levels(levels2, m, pml4, f)
            &&& levels2.contains_key(next) && levels2[next] == levels[parent] - 1
            &&& forall|t: u64| #[trigger] levels.contains_key(t) ==> levels2.contains_key(t)
                && levels2[t] == levels[t]
            &&& forall|t: u64|
                #[trigger] levels2.contains_key(t) ==> levels.contains_key(t) || (t == next
                    && !frames[(t / 4096) as int] && f == frames.update((t / 4096) as int, true))
            &&& keeps_present(levels, mem, m)
            &&& forall|a: u64| #[trigger] m.contains_key(a) ==> m[a].len() == 512
            &&& f.len() == frames.len()
            &&& forall|k: int| 0 <= k < frames.len() && frames[k] ==> #[trigger] f[k]
        }),
{
    lemma_create_step(mem, frames, parent, index);
    let entry = table_of(mem, parent)[index];
    if entry.present() {
        assert(levels[parent] == 4 || !entry.huge());
        levels
    } else {
        let n = lowest_free(frames)->Some_0;
        let table = (n * 4096) as u64;
        assert(is_lowest_free(frames, n)) by {
            let k = choose|k: int| #[trigger] is_lowest_free(frames, k);
        }
        assert(table / 4096 == n);
        assert(table < 0x10_0000_0000_0000);
        lemma_link_entry_bits(table);
        let (m, f, next) = spec_create_step(mem, frames, parent, index)->Ok_0;
        assert(next == table);
        assert(!levels.contains_key(table)) by {
            if levels.contains_key(table) {
                assert(frames[(table / 4096) as int]);
            }
        }
        let levels2 = levels.insert(table, levels[parent] - 1);
        assert(table != parent);
        assert(table_of(m, table) == PageTable::spec_empty());
        assert(table_of(m, parent)[index].addr() == table);
        assert forall|t: u64| #[trigger] levels2.contains_key(t) implies 1 <= levels2[t] <= 4 && t
            % 4096 == 0 && t / 4096 < f.len() && f[(t / 4096) as int] by {
            if t != table {
                assert(frames[(t / 4096) as int]);
            }
        }
        assert forall|t: u64, i: int|
            levels2.contains_key(t) && levels2[t] >= 2 && 0 <= i < 512 && #[trigger] table_of(
                m,
                t,
            )[i].present() && (levels2[t] == 4 || !table_of(m, t)[i].huge()) implies levels2.contains_key(
            table_of(m, t)[i].addr(),
        ) && levels2[table_of(m, t)[i].addr()] == levels2[t] - 1 by {
            if t == table {
                assert(!PageTable::spec_empty()[i].present()) by {
                    lemma_zero_entry_bits();
                }
            } else if t == parent && i == index {
            } else {
                assert(table_of(m, t)[i] == table_of(mem, t)[i]);
            }
        }
        assert forall|t: u64, i: int|
            levels.contains_key(t) && 0 <= i < 512 && #[trigger] table_of(mem, t)[i].present()
                implies table_of(m, t)[i] == table_of(mem, t)[i] by {
            if t == parent {
                assert(i != index);
            }
        }
        levels2
    }
}

/// `spec_map` keeps the tables owned and every present entry of them; the
/// tables it creates come from frames that were free. On success the walk
/// passes through four distinct tables below 2^52.
proof fn lemma_map_owned(
    levels: Map<u64, int>,
    mem: TableMemory,
    frames: Seq<bool>,
    pml4: u64,
    page: u64,
    frame: u64,
    flags: u64,
) -> (levels2: Map<u64, int>)
    requires
        table_levels(levels, mem, pml4, frames),
        forall|a: u64| #[trigger] mem.contains_key(a) ==> mem[a].len() == 512,
    ensures
        ({
            let (r, m, f) = spec_map(mem, frames, pml4, page, frame, flags);
            &&& table_levels(levels2, m, pml4, f)
            &&& forall|t: u64| #[trigger] levels.contains_key(t) ==> levels2.contains_key(t)
                && levels2[t] == levels[t]
            &&& forall|t: u64|
                #[trigger] levels2.contains_key(t) ==> levels.contains_key(t) || !frames[(t / 4096) as int]
            &&& keeps_present(levels, mem, m)
            &&& forall|a: u64| #[trigger] m.contains_key(a) ==> m[a].len() == 512
            &&& f.len() == frames.len()
            &&& (r is Ok ==> (spec_map_path(mem, frames, pml4, page) matches Some((pdpt, pd, pt))
                && distinct_tables(pml4, pdpt, pd, pt)))
        }),
{
    lemma_map_frames(mem, frames, pml4, page, frame, flags);
    lemma_table_index_bounds(page);
    let i4 = table_index(page, 4);
    let i3 = table_index(page, 3);
    let i2 = table_index(page, 2);
    let i1 = table_index(page, 1);
    if spec_create_step(mem, frames, pml4, i4) is Err {
        return levels;
    }
    let (m3, f3, pdpt) = spec_create_step(mem, frames, pml4, i4)->Ok_0;
    let l3 = lemma_create_step_owned(levels, mem, frames, pml4, pml4, i4);
    if spec_create_step(m3, f3, pdpt, i3) is Err {
        return l3;
    }
    let (m2, f2, pd) = spec_create_step(m3, f3, pdpt, i3)->Ok_0;
    let l2 = lemma_create_step_owned(l3, m3, f3, pml4, pdpt, i3);
    assert forall|t: u64| #[trigger] l2.contains_key(t) implies levels.contains_key(t) || !frames[(t / 4096) as int] by {
        if !l3.contains_key(t) {
            assert(!f3[(t / 4096) as int]);
        }
    }
    assert(keeps_present(levels, mem, m2)) by {
        assert forall|t: u64, i: int|
            levels.contains_key(t) && 0 <= i < 512 && #[trigger] table_of(mem, t)[i].present()
                implies table_of(m2, t)[i] == table_of(mem, t)[i] by {
            assert(table_of(m3, t)[i] == table_of(mem, t)[i]);
            assert(l3.contains_key(t));
        }
    }
    if spec_create_step(m2, f2, pd, i2) is Err {
        return l2;
    }
    let (m1, f1, pt) = spec_create_step(m2, f2, pd, i2)->Ok_0;
    let l1 = lemma_create_step_owned(l2, m2, f2, pml4, pd, i2);
    assert forall|t: u64| #[trigger] l1.contains_key(t) implies levels.contains_key(t) || !frames[(t / 4096) as int] by {
        if !l2.contains_key(t) {
            assert(!f2[(t / 4096) as int]);
            if !l3.contains_key(t) {
            } else {
                assert(f3[(t / 4096) as int]);
                if !levels.contains_key(t) {
                    assert(!frames[(t / 4096) as int]);
                }
            }
        }
    }
    assert(keeps_present(levels, mem, m1)) by {
        assert forall|t: u64, i: int|
            levels.contains_key(t) && 0 <= i < 512 && #[trigger] table_of(mem, t)[i].present()
                implies table_of(m1, t)[i] == table_of(mem, t)[i] by {
            assert(table_of(m2, t)[i] == table_of(mem, t)[i]);
            assert(l2.contains_key(t));
        }
    }
    assert(l1[pml4] == 4 && l1[pdpt] == 3 && l1[pd] == 2 && l1[pt] == 1);
    assert(pdpt / 4096 < frames.len() && pd / 4096 < frames.len() && pt / 4096 < frames.len());
    if table_of(m1, pt)[i1].present() {
        return l1;
    }
    let fin = set_entry(m1, pt, i1, PageTableEntry((frame & ADDRESS_MASK) | (flags | 1)));
    assert(table_levels(l1, fin, pml4, f1)) by {
        assert forall|t: u64, i: int|
            l1.contains_key(t) && l1[t] >= 2 && 0 <= i < 512 && #[trigger] table_of(fin, t)[i].present()
                && (l1[t] == 4 || !table_of(fin, t)[i].huge()) implies l1.contains_key(
            table_of(fin, t)[i].addr(),
        ) && l1[table_of(fin, t)[i].addr()] == l1[t] - 1 by {
            assert(t != pt);
            assert(table_of(fin, t) == table_of(m1, t));
        }
    }
    assert(keeps_present(levels, mem, fin)) by {
        assert forall|t: u64, i: int|
            levels.contains_key(t) && 0 <= i < 512 && #[trigger] table_of(mem, t)[i].present()
                implies table_of(fin, t)[i] == table_of(mem, t)[i] by {
            assert(table_of(m1, t)[i] == table_of(mem, t)[i]);
            if t == pt && i == i1 {
                assert(false);
            }
        }
    }
    assert forall|a: u64| #[trigger] fin.contains_key(a) implies fin[a].len() == 512 by {
        if a != pt {
            assert(m1.contains_key(a));
        }
    }
    l1
}

/// A walk through present entries of owned tables reads only entries that
/// `keeps_present` keeps: such a translation survives the change.
pub proof fn lemma_translate_kept(
    levels: Map<u64, int>,
    mem: TableMemory,
    mem2: TableMemory,
    pml4: u64,
    frames: Seq<bool>,
    va: u64,
)
    requires
        table_levels(levels, mem, pml4, frames),
        keeps_present(levels, mem, mem2),
        spec_translate(mem, pml4, va) is Some,
    ensures
        spec_translate(mem2, pml4, va) == spec_translate(mem, pml4, va),
{
    lemma_table_index_bounds(va);
    let e4 = table_of(mem, pml4)[table_index(va, 4)];
    let e3 = table_of(mem, e4.addr())[table_index(va, 3)];
    let e2 = table_of(mem, e3.addr())[table_index(va, 2)];
    let e1 = table_of(mem, e2.addr())[table_index(va, 1)];
    assert(table_of(mem2, pml4)[table_index(va, 4)] == e4);
    assert(levels[e4.addr()] == 3);
    assert(table_of(mem2, e4.addr())[table_index(va, 3)] == e3);
    assert(levels[e3.addr()] == 2);
    assert(table_of(mem2, e3.addr())[table_index(va, 2)] == e2);
    assert(levels[e2.addr()] == 1);
    assert(table_of(mem2, e2.addr())[table_index(va, 1)] == e1);
}

/// `spec_map_new` keeps the tables owned and every present entry of them,
/// and on success the page translates to the frame it took, when the flags
/// leave the address bits clear and the page is canonical.
pub proof fn lemma_map_new_owned(
    levels: Map<u64, int>,
    mem: TableMemory,
    frames: Seq<bool>,
    pml4: u64,
    page: u64,
    flags: u64,
) -> (levels2: Map<u64, int>)
    requires
        table_levels(levels, mem, pml4, frames),
        forall|a: u64| #[trigger] mem.contains_key(a) ==> mem[a].len() == 512,
    ensures
        ({
            let (r, m, f) = spec_map_new(mem, frames, pml4, page, flags);
            &&& table_levels(levels2, m, pml4, f)
            &&& forall|t: u64| #[trigger] levels.contains_key(t) ==> levels2.contains_key(t)
                && levels2[t] == levels[t]
            &&& keeps_present(levels, mem, m)
            &&& forall|a: u64| #[trigger] m.contains_key(a) ==> m[a].len() == 512
            &&& (r is Ok && flags & ADDRESS_MASK == 0 && page % 4096 == 0 && spec_is_canonical(page)
                ==> spec_translate(m, pml4, page) == Some(r->Ok_0))
        }),
{
    match lowest_free(frames) {
        None => levels,
        Some(n) => {
            assert(is_lowest_free(frames, n)) by {
                let k = choose|k: int| #[trigger] is_lowest_free(frames, k);
            }
            let frame = (n * 4096) as u64;
            let f1 = frames.update(n, true);
            lemma_levels_more_frames(levels, mem, pml4, frames, n);
            let l2 = lemma_map_owned(levels, mem, f1, pml4, page, frame, flags);
            let (r, m, f) = spec_map(mem, f1, pml4, page, frame, flags);
            if r is Ok {
                if flags & ADDRESS_MASK == 0 && page % 4096 == 0 && spec_is_canonical(page) {
                    assert(frame < 0x10_0000_0000_0000 && frame % 4096 == 0);
                    law_map_then_translate(mem, f1, pml4, page, frame, flags, page);
                }
                l2
            } else {
                assert forall|t: u64| #[trigger] l2.contains_key(t) implies t / 4096 != n by {
                    if levels.contains_key(t) {
                        assert(frames[(t / 4096) as int]);
                    } else {
                        assert(!f1[(t / 4096) as int]);
                    }
                }
                lemma_levels_free_frame(l2, m, pml4, f, n);
                l2
            }
        },
    }
}

/// An address space whose PML4 sits in an allocated frame and holds no
/// entry yet owns all its tables.
pub proof fn law_empty_tables_owned(mem: TableMemory, pml4: u64, frames: Seq<bool>)
    requires
        pml4 % 4096 == 0,
        pml4 / 4096 < frames.len(),
        frames[(pml4 / 4096) as int],
        frames.len() * 4096 <= 0x10_0000_0000_0000,
        forall|i: int| 0 <= i < 512 ==> !(#[trigger] table_of(mem, pml4)[i]).present(),
    ensures
        tables_owned(mem, pml4, frames),
{
    let levels = Map::<u64, int>::empty().insert(pml4, 4);
    assert(table_levels(levels, mem, pml4, frames));
}

/// Mapping a page of an address space whose tables are all allocated and
/// then translating any address inside it yields the frame it was mapped
/// to, at the same offset.
pub proof fn law_map_then_translate_owned(
    mem: TableMemory,
    frames: Seq<bool>,
    pml4: u64,
    page: u64,
    frame: u64,
    flags: u64,
    va: u64,
)
    requires
        forall|a: u64| #[trigger] mem.contains_key(a) ==> mem[a].len() == 512,
        tables_owned(mem, pml4, frames),
        page % 4096 == 0,
        frame % 4096 == 0,
        frame < 0x10_0000_0000_0000,
        flags & ADDRESS_MASK == 0,
        spec_is_canonical(page),
        page <= va < page + 4096,
        spec_map(mem, frames, pml4, page, frame, flags).0 is Ok,
    ensures
        spec_translate(spec_map(mem, frames, pml4, page, frame, flags).1, pml4, va) == Some(
            (frame + (va - page)) as u64,
        ),
{
    let levels = choose|l: Map<u64, int>| #[trigger] table_levels(l, mem, pml4, frames);
    lemma_map_owned(levels, mem, frames, pml4, page, frame, flags);
    law_map_then_translate(mem, frames, pml4, page, frame, flags, va);
}

/// Unmapping a page of an address space whose tables are all allocated
/// right after mapping it returns the frame it was mapped to, after which
/// no address in the page translates.
pub proof fn law_map_then_unmap_owned(
    mem: TableMemory,
    frames: Seq<bool>,
    pml4: u64,
    page: u64,
    frame: u64,
    flags: u64,
    va: u64,
)
    requires
        forall|a: u64| #[trigger] mem.contains_key(a) ==> mem[a].len() == 512,
        tables_owned(mem, pml4, frames),
        page % 4096 == 0,
        frame % 4096 == 0,
        frame < 0x10_0000_0000_0000,
        flags & ADDRESS_MASK == 0,
        spec_is_canonical(page),
        page <= va < page + 4096,
        spec_map(mem, frames, pml4, page, frame, flags).0 is Ok,
    ensures
        spec_unmap(spec_map(mem, frames, pml4, page, frame, flags).1, pml4, page) matches Ok(
            (f, after),
        ) && f == frame && spec_translate(after, pml4, va) is None,
{
    let levels = choose|l: Map<u64, int>| #[trigger] table_levels(l, mem, pml4, frames);
    lemma_map_owned(levels, mem, frames, pml4, page, frame, flags);
    law_map_then_unmap(mem, frames, pml4, page, frame, flags, va);
}

/// `spec_map` keeps the tables owned, and on success the page translates
/// to the frame it was mapped to, when the flags leave the address bits
/// clear, the page is canonical and the frame is page aligned below 2^52.
proof fn lemma_map_keeps_owned(
    mem: TableMemory,
    frames: Seq<bool>,
    pml4: u64,
    page: u64,
    frame: u64,
    flags: u64,
)
    requires
        tables_owned(mem, pml4, frames),
        forall|a: u64| #[trigger] mem.contains_key(a) ==> mem[a].len() == 512,
    ensures
        ({
            let (r, m, f) = spec_map(mem, frames, pml4, page, frame, flags);
            &&& tables_owned(m, pml4, f)
            &&& (r is Ok && flags & ADDRESS_MASK == 0 && page % 4096 == 0 && spec_is_canonical(page)
                && frame % 4096 == 0 && frame < 0x10_0000_0000_0000 ==> spec_translate(m, pml4, page)
                == Some(frame))
        }),
{
    let levels = choose|l: Map<u64, int>| #[trigger] table_levels(l, mem, pml4, frames);
    let l2 = lemma_map_owned(levels, mem, frames, pml4, page, frame, flags);
    let (r, m, f) = spec_map(mem, frames, pml4, page, frame, flags);
    assert(table_levels(l2, m, pml4, f));
    if r is Ok && flags & ADDRESS_MASK == 0 && page % 4096 == 0 && spec_is_canonical(page) && frame
        % 4096 == 0 && frame < 0x10_0000_0000_0000 {
        assert(frames.len() * 4096 <= u64::MAX);
        law_map_then_translate(mem, frames, pml4, page, frame, flags, page);
    }
}

/// The first table that the walk for `va` reads and that `mem` does not
/// hold: the PML4, then the table each present entry on the walk leads to,
/// down to the page table. `None` once every table the walk reads is held.
pub open spec fn spec_first_unloaded(mem: TableMemory, pml4: u64, va: u64) -> Option<u64> {
    if !mem.contains_key(pml4) {
        Some(pml4)
    } else {
        let e4 = mem[pml4][table_index(va, 4)];
        if !e4.present() {
            None
        } else if !mem.contains_key(e4.addr()) {
            Some(e4.addr())
        } else {
            let e3 = mem[e4.addr()][table_index(va, 3)];
            if !e3.present() || e3.huge() {
                None
            } else if !mem.contains_key(e3.addr()) {
                Some(e3.addr())
            } else {
                let e2 = mem[e3.addr()][table_index(va, 2)];
                if !e2.present() || e2.huge() {
                    None
                } else if !mem.contains_key(e2.addr()) {
                    Some(e2.addr())
                } else {
                    None
                }
            }
        }
    }
}

/// x86-64 page-table mapper.
///
/// The mapper works on a copy of the page tables of one address space,
/// rooted at the PML4 frame. Physical memory is read and written by the
/// caller, through the direct map at `hhdm_offset`: before an operation on
/// an address, the caller loads each table that
/// [`Mapper::first_unloaded`] names until it names none; after an
/// operation that changes tables, it writes back the tables that
/// [`Mapper::take_changed`] hands out and flushes the TLB entries of the
/// pages concerned. A table the mapper creates starts out zeroed in its
/// copy and is handed out like any changed table.
///
/// The mapper does not own the frame allocator: the allocator is passed
/// only to operations that may need to allocate intermediate page tables.
pub struct Mapper {
    pml4_frame: PhysFrame,
    hhdm_offset: u64,
    tables: HashMap<u64, PageTable>,
    changed: Vec<u64>,
    published: Ghost<TableMemory>,
}

impl Mapper {
    /// The page tables as the mapper holds them, keyed by frame address.
    pub closed spec fn memory(&self) -> TableMemory {
        self.tables@.map_values(|t: PageTable| t@)
    }

    /// The tables as they were last loaded or handed out: what physical
    /// memory holds once the caller has written back what it was handed.
    pub closed spec fn published(&self) -> TableMemory {
        self.published@
    }

    /// Start address of the PML4 frame.
    pub closed spec fn pml4_addr(&self) -> u64 {
        self.pml4_frame.start()
    }

    /// Offset of the direct map of physical memory.
    pub closed spec fn spec_hhdm_offset(&self) -> u64 {
        self.hhdm_offset
    }

    /// Every table is a full table, and every table that differs from its
    /// published state is listed as changed.
    pub closed spec fn wf(&self) -> bool {
        &&& forall|a: u64| #[trigger] self.tables@.contains_key(a) ==> self.tables@[a]@.len() == 512
        &&& forall|a: u64|
            #[trigger] table_of(self.memory(), a) != table_of(self.published@, a)
                ==> self.changed@.contains(a)
    }

    /// A mapper for the address space rooted at `pml4_frame`, with no table
    /// loaded yet.
    pub fn new(pml4_frame: PhysFrame, hhdm_offset: u64) -> (r: Self)
        ensures
            r.wf(),
            r.memory() == Map::<u64, Seq<PageTableEntry>>::empty(),
            r.published() == Map::<u64, Seq<PageTableEntry>>::empty(),
            r.pml4_addr() == pml4_frame.start(),
            r.spec_hhdm_offset() == hhdm_offset,
    {
        let r = Self {
            pml4_frame,
            hhdm_offset,
            tables: HashMap::new(),
            changed: Vec::new(),
            published: Ghost(Map::empty()),
        };
        proof {
            assert(r.memory() =~= Map::<u64, Seq<PageTableEntry>>::empty());
        }
        r
    }

    /// Offset of the direct map of physical memory.
    pub fn hhdm_offset(&self) -> (r: u64)
        ensures
            r == self.spec_hhdm_offset(),
    {
        self.hhdm_offset
    }

    /// Take in the table that physical memory holds in the frame at `addr`.
    pub fn load_table(&mut self, addr: u64, table: PageTable)
        requires
            old(self).wf(),
        ensures
            final(self).wf(),
            final(self).memory() == old(self).memory().insert(addr, table@),
            final(self).published() == old(self).published().insert(addr, table@),
            final(self).pml4_addr() == old(self).pml4_addr(),
            final(self).spec_hhdm_offset() == old(self).spec_hhdm_offset(),
    {
        broadcast use vstd::std_specs::hash::group_hash_axioms;

        let ghost old_mem = self.memory();
        let ghost old_changed = self.changed@;
        let ghost view = table@;
        self.tables.insert(addr, table);
        self.published = Ghost(self.published@.insert(addr, view));
        proof {
            assert(self.memory() =~= old_mem.insert(addr, view));
            assert forall|a: u64|
                #[trigger] table_of(self.memory(), a) != table_of(self.published@, a)
                    implies self.changed@.contains(a) by {
                if a != addr {
                    assert(table_of(self.memory(), a) == table_of(old_mem, a));
                }
            }
        }
    }

    /// The first table that the walk for `address` reads and that the
    /// mapper does not hold yet; `None` once it holds every one.
    pub fn first_unloaded(&self, address: VirtAddr) -> (r: Option<u64>)
        requires
            self.wf(),
        ensures
            r == spec_first_unloaded(self.memory(), self.pml4_addr(), address.0),
    {
        broadcast use vstd::std_specs::hash::group_hash_axioms;

        let va = address.as_u64();
        proof {
            lemma_table_index_bounds(va);
        }
        let pml4 = self.pml4_frame.start_address().as_u64();
        if !self.tables.contains_key(&pml4) {
            return Some(pml4);
        }
        let e4 = self.read_entry(pml4, ((va >> 39u64) & 0x1ff) as usize);
        if !e4.is_present() {
            return None;
        }
        let pdpt = e4.bits() & ADDRESS_MASK;
        if !self.tables.contains_key(&pdpt) {
            return Some(pdpt);
        }
        let e3 = self.read_entry(pdpt, ((va >> 30u64) & 0x1ff) as usize);
        proof {
            lemma_huge_flag(e3.0);
        }
        if !e3.is_present() || e3.flags().contains(PageTableFlags::HUGE_PAGE()) {
            return None;
        }
        let pd = e3.bits() & ADDRESS_MASK;
        if !self.tables.contains_key(&pd) {
            return Some(pd);
        }
        let e2 = self.read_entry(pd, ((va >> 21u64) & 0x1ff) as usize);
        proof {
            lemma_huge_flag(e2.0);
        }
        if !e2.is_present() || e2.flags().contains(PageTableFlags::HUGE_PAGE()) {
            return None;
        }
        let pt = e2.bits() & ADDRESS_MASK;
        if !self.tables.contains_key(&pt) {
            return Some(pt);
        }
        None
    }

    /// Hand out every table that differs from its published state, with
    /// its frame address, for the caller to write to physical memory; the
    /// tables as they are become the published state.
    pub fn take_changed(&mut self) -> (r: Vec<(u64, PageTable)>)
        requires
            old(self).wf(),
        ensures
            final(self).wf(),
            final(self).memory() == old(self).memory(),
            final(self).published() == old(self).memory(),
            final(self).pml4_addr() == old(self).pml4_addr(),
            final(self).spec_hhdm_offset() == old(self).spec_hhdm_offset(),
            forall|i: int| 0 <= i < r.len() ==> #[trigger] r@[i].1@ == table_of(old(self).memory(), r@[i].0),
            forall|a: u64|
                table_of(old(self).memory(), a) != table_of(old(self).published(), a) ==> exists|i: int|
                    0 <= i < r.len() && #[trigger] r@[i].0 == a,
    {
        broadcast use vstd::std_specs::hash::group_hash_axioms;

        let mut out: Vec<(u64, PageTable)> = Vec::new();
        let mut i: usize = 0;
        while i < self.changed.len()
            invariant
                self.wf(),
                i <= self.changed.len(),
                self.memory() == old(self).memory(),
                self.published() == old(self).published(),
                self.changed == old(self).changed,
                self.pml4_addr() == old(self).pml4_addr(),
                self.spec_hhdm_offset() == old(self).spec_hhdm_offset(),
                out.len() == i,
                forall|j: int| 0 <= j < i ==> #[trigger] out@[j].1@ == table_of(self.memory(), out@[j].0),
                forall|j: int| 0 <= j < i ==> #[trigger] out@[j].0 == self.changed@[j],
            decreases self.changed.len() - i,
        {
            let addr = self.changed[i];
            let copy = match self.tables.get(&addr) {
                Some(t) => t.copy(),
                None => PageTable::new(),
            };
            out.push((addr, copy));
            i = i + 1;
        }
        let ghost mem = self.memory();
        self.changed = Vec::new();
        self.published = Ghost(mem);
        proof {
            assert forall|a: u64|
                table_of(old(self).memory(), a) != table_of(old(self).published(), a) implies exists|j: int|
                    0 <= j < out.len() && #[trigger] out@[j].0 == a by {
                assert(old(self).changed@.contains(a));
                let j = choose|j: int| 0 <= j < old(self).changed@.len() && old(self).changed@[j] == a;
                assert(out@[j].0 == a);
            }
        }
        out
    }

    /// Every table of a well-formed mapper is a full table.
    pub proof fn lemma_full_tables(&self)
        requires
            self.wf(),
        ensures
            forall|a: u64| #[trigger] self.memory().contains_key(a) ==> self.memory()[a].len() == 512,
    {
    }

    pub fn pml4_frame(&self) -> (r: PhysFrame)
        ensures
            r.start() == self.pml4_addr(),
    {
        self.pml4_frame
    }

    /// Read entry `index` of the table in the frame at `table`.
    fn read_entry(&self, table: u64, index: usize) -> (r: PageTableEntry)
        requires
            self.wf(),
            index < 512,
        ensures
            r == table_of(self.memory(), table)[index as int],
    {
        broadcast use vstd::std_specs::hash::group_hash_axioms;

        match self.tables.get(&table) {
            Some(t) => *t.entry(index),
            None => PageTableEntry::empty(),
        }
    }

    /// Write entry `index` of the table in the frame at `table`.
    fn write_entry(&mut self, table: u64, index: usize, entry: PageTableEntry)
        requires
            old(self).wf(),
            index < 512,
        ensures
            final(self).wf(),
            final(self).memory() == set_entry(old(self).memory(), table, index as int, entry),
            final(self).pml4_addr() == old(self).pml4_addr(),
            final(self).spec_hhdm_offset() == old(self).spec_hhdm_offset(),
    {
        broadcast use vstd::std_specs::hash::group_hash_axioms;

        let ghost old_mem = self.memory();
        let mut t = match self.tables.remove(&table) {
            Some(t) => t,
            None => PageTable::new(),
        };
        *t.entry_mut(index) = entry;
        self.tables.insert(table, t);
        self.changed.push(table);
        proof {
            assert(self.memory() =~= set_entry(old_mem, table, index as int, entry));
            assert forall|a: u64|
                #[trigger] table_of(self.memory(), a) != table_of(self.published@, a)
                    implies self.changed@.contains(a) by {
                if a != table {
                    assert(table_of(self.memory(), a) == table_of(old_mem, a));
                    assert(old(self).changed@.contains(a));
                    let j = choose|j: int| 0 <= j < old(self).changed@.len() && old(self).changed@[j] == a;
                    assert(self.changed@[j] == a);
                } else {
                    assert(self.changed@[self.changed@.len() - 1] == a);
                }
            }
        }
    }

    /// Clear the table in the frame at `table`.
    fn zero_table(&mut self, table: u64)
        requires
            old(self).wf(),
        ensures
            final(self).wf(),
            final(self).memory() == old(self).memory().insert(table, PageTable::spec_empty()),
            final(self).pml4_addr() == old(self).pml4_addr(),
            final(self).spec_hhdm_offset() == old(self).spec_hhdm_offset(),
    {
        broadcast use vstd::std_specs::hash::group_hash_axioms;

        let ghost old_mem = self.memory();
        let mut t = match self.tables.remove(&table) {
            Some(t) => t,
            None => PageTable::new(),
        };
        t.zero();
        self.tables.insert(table, t);
        self.changed.push(table);
        proof {
            assert(self.memory() =~= old_mem.insert(table, PageTable::spec_empty()));
            assert forall|a: u64|
                #[trigger] table_of(self.memory(), a) != table_of(self.published@, a)
                    implies self.changed@.contains(a) by {
                if a != table {
                    assert(table_of(self.memory(), a) == table_of(old_mem, a));
                    assert(old(self).changed@.contains(a));
                    let j = choose|j: int| 0 <= j < old(self).changed@.len() && old(self).changed@[j] == a;
                    assert(self.changed@[j] == a);
                } else {
                    assert(self.changed@[self.changed@.len() - 1] == a);
                }
            }
        }
    }

    /// Allocate and zero an intermediate page table.
    fn allocate_table(&mut self, frame_allocator: &mut BitmapFrameAllocator) -> (r: Result<
        PhysFrame,
        MapperError,
    >)
        requires
            old(self).wf(),
            old(frame_allocator).wf(),
        ensures
            final(self).wf(),
            final(frame_allocator).wf(),
            final(self).pml4_addr() == old(self).pml4_addr(),
            final(self).spec_hhdm_offset() == old(self).spec_hhdm_offset(),
            match lowest_free(old(frame_allocator)@) {
                None => r == Err::<PhysFrame, MapperError>(MapperError::OutOfFrames) && final(self).memory() == old(self).memory() && final(frame_allocator)@ == old(frame_allocator)@,
                Some(n) => r == Ok::<PhysFrame, MapperError>(
                    PhysFrame { start_address: PhysAddr((n * 4096) as u64) },
                ) && final(self).memory() == old(self).memory().insert(
                    (n * 4096) as u64,
                    PageTable::spec_empty(),
                ) && final(frame_allocator)@ == old(frame_allocator)@.update(n, true),
            },
    {
        let frame = match frame_allocator.allocate() {
            Some(frame) => frame,
            None => return Err(MapperError::OutOfFrames),
        };
        self.zero_table(frame.start_address().as_u64());
        Ok(frame)
    }

    /// The entry at `index` of the table at `parent` must lead to a table;
    /// create that table when the entry is absent.
    fn get_or_create_next(
        &mut self,
        parent: u64,
        index: usize,
        frame_allocator: &mut BitmapFrameAllocator,
    ) -> (r: Result<u64, MapperError>)
        requires
            old(self).wf(),
            old(frame_allocator).wf(),
            index < 512,
        ensures
            final(self).wf(),
            final(frame_allocator).wf(),
            final(self).pml4_addr() == old(self).pml4_addr(),
            final(self).spec_hhdm_offset() == old(self).spec_hhdm_offset(),
            match spec_create_step(
                old(self).memory(),
                old(frame_allocator)@,
                parent,
                index as int,
            ) {
                Err(e) => r == Err::<u64, MapperError>(e) && final(self).memory() == old(self).memory() && final(frame_allocator)@ == old(frame_allocator)@,
                Ok((mem, frames, next)) => r == Ok::<u64, MapperError>(next) && final(self).memory() == mem && final(frame_allocator)@ == frames,
            },
    {
        let entry = self.read_entry(parent, index);
        if entry.is_present() && entry.flags().contains(PageTableFlags::HUGE_PAGE()) {
            proof {
                lemma_huge_flag(entry.0);
            }
            return Err(MapperError::HugePage);
        }
        proof {
            lemma_huge_flag(entry.0);
        }
        match entry.frame() {
            Some(frame) => Ok(frame.start_address().as_u64()),
            None => {
                let frame = self.allocate_table(frame_allocator)?;
                let mut link = PageTableEntry::empty();
                link.set(frame, PageTableFlags::PRESENT() | PageTableFlags::WRITABLE());
                proof {
                    lemma_constant_bits();
                }
                self.write_entry(parent, index, link);
                Ok(frame.start_address().as_u64())
            },
        }
    }

    /// Get or create the entry that maps `page`: the page table holding it.
    fn get_or_create_pte(&mut self, page: Page, frame_allocator: &mut BitmapFrameAllocator) -> (r:
        Result<u64, MapperError>)
        requires
            old(self).wf(),
            old(frame_allocator).wf(),
        ensures
            final(self).wf(),
            final(frame_allocator).wf(),
            final(self).pml4_addr() == old(self).pml4_addr(),
            final(self).spec_hhdm_offset() == old(self).spec_hhdm_offset(),
            ({
                let mem = old(self).memory();
                let frames = old(frame_allocator)@;
                let pml4 = old(self).pml4_addr();
                let p = page.start();
                match spec_create_step(mem, frames, pml4, table_index(p, 4)) {
                    Err(e) => r == Err::<u64, MapperError>(e) && final(self).memory() == mem
                        && final(frame_allocator)@ == frames,
                    Ok((m3, f3, pdpt)) => match spec_create_step(m3, f3, pdpt, table_index(p, 3)) {
                        Err(e) => r == Err::<u64, MapperError>(e) && final(self).memory() == m3
                            && final(frame_allocator)@ == f3,
                        Ok((m2, f2, pd)) => match spec_create_step(m2, f2, pd, table_index(p, 2)) {
                            Err(e) => r == Err::<u64, MapperError>(e) && final(self).memory()
                                == m2 && final(frame_allocator)@ == f2,
                            Ok((m1, f1, pt)) => r == Ok::<u64, MapperError>(pt) && final(self).memory() == m1 && final(frame_allocator)@ == f1,
                        },
                    },
                }
            }),
    {
        let pml4 = self.pml4_frame.start_address().as_u64();
        let pdpt = self.get_or_create_next(pml4, page.pml4_index(), frame_allocator)?;
        let pd = self.get_or_create_next(pdpt, page.pdpt_index(), frame_allocator)?;
        let pt = self.get_or_create_next(pd, page.pd_index(), frame_allocator)?;
        Ok(pt)
    }

    /// Find the page table that holds the entry for `page`.
    ///
    /// This never allocates page tables.
    fn find_pte(&self, page: Page) -> (r: Result<u64, MapperError>)
        requires
            self.wf(),
        ensures
            r == spec_find_pte(self.memory(), self.pml4_addr(), page.start()),
    {
        let pml4 = self.pml4_frame.start_address().as_u64();
        let pml4_entry = self.read_entry(pml4, page.pml4_index());
        if !pml4_entry.is_present() {
            return Err(MapperError::PageNotMapped);
        }
        let pdpt_frame = match pml4_entry.frame() {
            Some(f) => f,
            None => return Err(MapperError::InvalidPageTable),
        };
        let pdpt_entry = self.read_entry(pdpt_frame.start_address().as_u64(), page.pdpt_index());
        proof {
            lemma_huge_flag(pdpt_entry.0);
        }
        if !pdpt_entry.is_present() {
            return Err(MapperError::PageNotMapped);
        }
        if pdpt_entry.flags().contains(PageTableFlags::HUGE_PAGE()) {
            return Err(MapperError::HugePage);
        }
        let pd_frame = match pdpt_entry.frame() {
            Some(f) => f,
            None => return Err(MapperError::InvalidPageTable),
        };
        let pd_entry = self.read_entry(pd_frame.start_address().as_u64(), page.pd_index());
        proof {
            lemma_huge_flag(pd_entry.0);
        }
        if !pd_entry.is_present() {
            return Err(MapperError::PageNotMapped);
        }
        if pd_entry.flags().contains(PageTableFlags::HUGE_PAGE()) {
            return Err(MapperError::HugePage);
        }
        let pt_frame = match pd_entry.frame() {
            Some(f) => f,
            None => return Err(MapperError::InvalidPageTable),
        };
        Ok(pt_frame.start_address().as_u64())
    }

    /// Map a 4 KiB virtual page to a physical frame, creating intermediate
    /// page tables as necessary. The result is exactly [`spec_map`].
    pub fn map(
        &mut self,
        page: Page,
        frame: PhysFrame,
        flags: PageTableFlags,
        frame_allocator: &mut BitmapFrameAllocator,
    ) -> (r: Result<(), MapperError>)
        requires
            old(self).wf(),
            spec_first_unloaded(old(self).memory(), old(self).pml4_addr(), page.start()) is None,
            old(frame_allocator).wf(),
        ensures
            final(self).wf(),
            final(frame_allocator).wf(),
            final(self).pml4_addr() == old(self).pml4_addr(),
            final(self).spec_hhdm_offset() == old(self).spec_hhdm_offset(),
            spec_map(
                old(self).memory(),
                old(frame_allocator)@,
                old(self).pml4_addr(),
                page.start(),
                frame.start(),
                flags.0,
            ) == (r, final(self).memory(), final(frame_allocator)@),
            tables_owned(old(self).memory(), old(self).pml4_addr(), old(frame_allocator)@) ==> tables_owned(
                final(self).memory(),
                final(self).pml4_addr(),
                final(frame_allocator)@,
            ),
            tables_owned(old(self).memory(), old(self).pml4_addr(), old(frame_allocator)@) && r is Ok
                && flags.0 & ADDRESS_MASK == 0 && page.start() % 4096 == 0 && spec_is_canonical(
                page.start(),
            ) && frame.start() % 4096 == 0 && frame.start() < 0x10_0000_0000_0000 ==> spec_translate(
                final(self).memory(),
                final(self).pml4_addr(),
                page.start(),
            ) == Some(frame.start()),
    {
        proof {
            if tables_owned(self.memory(), self.pml4_addr(), frame_allocator@) {
                lemma_map_keeps_owned(
                    self.memory(),
                    frame_allocator@,
                    self.pml4_addr(),
                    page.start(),
                    frame.start(),
                    flags.0,
                );
            }
        }
        let pt = self.get_or_create_pte(page, frame_allocator)?;
        let index = page.pt_index();
        let entry = self.read_entry(pt, index);
        if entry.is_present() {
            return Err(MapperError::PageAlreadyMapped);
        }
        let mut new_entry = entry;
        new_entry.set(frame, flags | PageTableFlags::PRESENT());
        self.write_entry(pt, index, new_entry);
        Ok(())
    }

    /// Map `page` to a newly allocated frame, creating intermediate page
    /// tables as necessary; when the mapping fails the frame is given back.
    /// The result is exactly [`spec_map_new`].
    pub fn map_new(
        &mut self,
        page: Page,
        flags: PageTableFlags,
        frame_allocator: &mut BitmapFrameAllocator,
    ) -> (r: Result<PhysFrame, MapperError>)
        requires
            old(self).wf(),
            spec_first_unloaded(old(self).memory(), old(self).pml4_addr(), page.start()) is None,
            old(frame_allocator).wf(),
        ensures
            final(self).wf(),
            final(frame_allocator).wf(),
            final(self).pml4_addr() == old(self).pml4_addr(),
            final(self).spec_hhdm_offset() == old(self).spec_hhdm_offset(),
            ({
                let (res, mem, frames) = spec_map_new(
                    old(self).memory(),
                    old(frame_allocator)@,
                    old(self).pml4_addr(),
                    page.start(),
                    flags.0,
                );
                &&& final(self).memory() == mem
                &&& final(frame_allocator)@ == frames
                &&& match res {
                    Ok(a) => r matches Ok(f) && f.start() == a,
                    Err(e) => r == Err::<PhysFrame, MapperError>(e),
                }
            }),
            tables_owned(old(self).memory(), old(self).pml4_addr(), old(frame_allocator)@) ==> tables_owned(
                final(self).memory(),
                final(self).pml4_addr(),
                final(frame_allocator)@,
            ),
            tables_owned(old(self).memory(), old(self).pml4_addr(), old(frame_allocator)@) && r is Ok
                && flags.0 & ADDRESS_MASK == 0 && page.start() % 4096 == 0 && spec_is_canonical(
                page.start(),
            ) ==> spec_translate(final(self).memory(), final(self).pml4_addr(), page.start()) == Some(
                r->Ok_0.start(),
            ),
    {
        proof {
            let mem = self.memory();
            let pml4 = self.pml4_addr();
            let frames = frame_allocator@;
            if tables_owned(mem, pml4, frames) {
                let levels = choose|l: Map<u64, int>| #[trigger] table_levels(l, mem, pml4, frames);
                let l2 = lemma_map_new_owned(levels, mem, frames, pml4, page.start(), flags.0);
                let (res, m, f) = spec_map_new(mem, frames, pml4, page.start(), flags.0);
                assert(table_levels(l2, m, pml4, f));
            }
        }
        let frame = match frame_allocator.allocate() {
            Some(frame) => frame,
            None => return Err(MapperError::OutOfFrames),
        };
        let ghost n = (frame.start() / FRAME_SIZE) as int;
        let ghost taken = frame_allocator@;
        match self.map(page, frame, flags, frame_allocator) {
            Ok(()) => Ok(frame),
            Err(e) => {
                proof {
                    lemma_map_frames(
                        old(self).memory(),
                        taken,
                        old(self).pml4_addr(),
                        page.start(),
                        frame.start(),
                        flags.0,
                    );
                    assert(frame_allocator@[n]);
                }
                let _ = frame_allocator.deallocate(frame);
                Err(e)
            },
        }
    }

    /// Unmap a 4 KiB virtual page, returning the frame it was mapped to.
    ///
    /// The frame is not returned to the frame allocator. The result is
    /// exactly [`spec_unmap`].
    pub fn unmap(&mut self, page: Page) -> (r: Result<UnmapResult, MapperError>)
        requires
            old(self).wf(),
            spec_first_unloaded(old(self).memory(), old(self).pml4_addr(), page.start()) is None,
        ensures
            final(self).wf(),
            final(self).pml4_addr() == old(self).pml4_addr(),
            final(self).spec_hhdm_offset() == old(self).spec_hhdm_offset(),
            match spec_unmap(old(self).memory(), old(self).pml4_addr(), page.start()) {
                Err(e) => r matches Err(e2) && e2 == e && final(self).memory() == old(self).memory(),
                Ok((frame, mem)) => r matches Ok(u) && u.frame.start() == frame && final(self).memory() == mem,
            },
    {
        let pt = self.find_pte(page)?;
        let index = page.pt_index();
        let entry = self.read_entry(pt, index);
        if !entry.is_present() {
            return Err(MapperError::PageNotMapped);
        }
        let frame = match entry.frame() {
            Some(f) => f,
            None => return Err(MapperError::InvalidFrame),
        };
        self.write_entry(pt, index, PageTableEntry::empty());
        Ok(UnmapResult { frame })
    }

    /// Translate a virtual address to a physical address; `None` when the
    /// address is not canonical or not mapped through 4 KiB pages.
    pub fn translate(&self, address: VirtAddr) -> (r: Option<PhysAddr>)
        requires
            self.wf(),
            spec_first_unloaded(self.memory(), self.pml4_addr(), address.0) is None,
        ensures
            r == match spec_translate(self.memory(), self.pml4_addr(), address.0) {
                Some(a) => Some(PhysAddr(a)),
                None => None::<PhysAddr>,
            },
    {
        if !is_canonical(address.as_u64()) {
            return None;
        }
        let page = Page::containing_address(address);
        let offset = address.as_u64() & (FRAME_SIZE - 1);
        proof {
            let a = address.0;
            assert(a & 4095u64 == a % 4096 && (a - a % 4096) as u64 >> 39u64 == a >> 39u64 && (a - a
                % 4096) as u64 >> 30u64 == a >> 30u64 && (a - a % 4096) as u64 >> 21u64 == a >> 21u64
                && (a - a % 4096) as u64 >> 12u64 == a >> 12u64) by (bit_vector);
        }
        let pml4 = self.pml4_frame.start_address().as_u64();
        let pml4_entry = self.read_entry(pml4, page.pml4_index());
        if !pml4_entry.is_present() {
            return None;
        }
        let pdpt_frame = pml4_entry.frame()?;
        let pdpt_entry = self.read_entry(pdpt_frame.start_address().as_u64(), page.pdpt_index());
        proof {
            lemma_huge_flag(pdpt_entry.0);
        }
        if !pdpt_entry.is_present() {
            return None;
        }
        // 1 GiB pages are not implemented.
        if pdpt_entry.flags().contains(PageTableFlags::HUGE_PAGE()) {
            return None;
        }
        let pd_frame = pdpt_entry.frame()?;
        let pd_entry = self.read_entry(pd_frame.start_address().as_u64(), page.pd_index());
        proof {
            lemma_huge_flag(pd_entry.0);
        }
        if !pd_entry.is_present() {
            return None;
        }
        // 2 MiB pages are not implemented.
        if pd_entry.flags().contains(PageTableFlags::HUGE_PAGE()) {
            return None;
        }
        let pt_frame = pd_entry.frame()?;
        let pte = self.read_entry(pt_frame.start_address().as_u64(), page.pt_index());
        let frame = pte.frame()?;
        proof {
            let b = pte.0;
            assert(b & 0x000f_ffff_ffff_f000u64 <= 0x000f_ffff_ffff_f000u64) by (bit_vector);
        }
        Some(PhysAddr::new(frame.start_address().as_u64() + offset))
    }

    /// Translate a virtual page to the frame it is mapped to.
    pub fn translate_page(&self, page: Page) -> (r: Option<PhysFrame>)
        requires
            self.wf(),
            spec_first_unloaded(self.memory(), self.pml4_addr(), page.start()) is None,
        ensures
            r == match spec_translate(self.memory(), self.pml4_addr(), page.start()) {
                Some(a) => Some(PhysFrame { start_address: PhysAddr((a - a % 4096) as u64) }),
                None => None::<PhysFrame>,
            },
    {
        match self.translate(page.start_address()) {
            Some(address) => {
                proof {
                    lemma_align_down_mask(address.0);
                }
                PhysFrame::from_start_address(PhysAddr::new(address.as_u64() & !(FRAME_SIZE - 1)))
            },
            None => None,
        }
    }
}

/// Check whether an x86-64 virtual address is canonical, assuming a 48-bit
/// virtual address space.
pub fn is_canonical(address: u64) -> (r: bool)
    ensures
        r == spec_is_canonical(address),
{
    let upper = address >> 47;
    upper == 0 || upper == 0x1ffff
}

} // verus!
