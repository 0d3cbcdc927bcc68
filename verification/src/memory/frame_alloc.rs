//! Physical addresses, 4 KiB physical frames and the bitmap frame allocator.

use vstd::prelude::*;
use crate::memory::bitmap::{
    word_bit, bits_view, count_free, is_lowest_free, lowest_free, lemma_lowest_free_is,
    lemma_lowest_free_none, lemma_count_free_update, lemma_count_free_all_set,
    lemma_count_free_le, set_bit, clear_bit, test_bit, lemma_view_set, lemma_view_clear,
    lemma_first_free_in_word, lemma_full_word_bits,
};

verus! {

/// Size of a single physical frame.
///
/// 4 KiB frames are the fundamental allocation unit.
pub const FRAME_SIZE: u64 = 4096;

/// `value & !(FRAME_SIZE - 1)` rounds down to a frame boundary.
pub proof fn lemma_align_down_mask(value: u64)
    ensures
        value & !4095u64 == value - value % 4096,
        (value & !4095u64) % 4096 == 0,
        value & !4095u64 <= value,
{
    assert(value & !4095u64 == value - value % 4096) by (bit_vector);
    assert((value & !4095u64) % 4096 == 0) by (bit_vector);
    assert(value & !4095u64 <= value) by (bit_vector);
}

/// A physical address.
///
/// Deliberately separate from a virtual address so that mixing the two up
/// is harder.
#[derive(Clone, Copy, PartialEq, Eq, Structural, PartialOrd, Ord, Hash, Debug)]
pub struct PhysAddr(pub u64);

impl PhysAddr {
    pub fn new(address: u64) -> (r: Self)
        ensures
            r.0 == address,
    {
        Self(address)
    }

    pub fn as_u64(self) -> (r: u64)
        ensures
            r == self.0,
    {
        self.0
    }

    pub fn is_aligned(self) -> (r: bool)
        ensures
            r == (self.0 % FRAME_SIZE == 0),
    {
        self.0 % FRAME_SIZE == 0
    }
}

/// A single 4 KiB physical frame.
///
/// Frames built by this module always start on a frame boundary.
#[derive(Clone, Copy, PartialEq, Eq, Structural, PartialOrd, Ord, Hash, Debug)]
pub struct PhysFrame {
    pub start_address: PhysAddr,
}

impl PhysFrame {
    /// Start address of the frame as an integer.
    pub open spec fn start(self) -> u64 {
        self.start_address.0
    }

    /// Whether the frame starts on a frame boundary.
    pub open spec fn aligned(self) -> bool {
        self.start() % FRAME_SIZE == 0
    }

    /// Construct a frame from an address, requiring the address to be aligned.
    pub fn from_start_address(address: PhysAddr) -> (r: Option<Self>)
        ensures
            r == (if address.0 % FRAME_SIZE == 0 {
                Some(PhysFrame { start_address: address })
            } else {
                None
            }),
    {
        if address.is_aligned() {
            Some(Self { start_address: address })
        } else {
            None
        }
    }

    /// Construct the frame containing an arbitrary physical address.
    pub fn containing_address(address: PhysAddr) -> (r: Self)
        ensures
            r.start() == address.0 - address.0 % FRAME_SIZE,
            r.aligned(),
    {
        proof {
            lemma_align_down_mask(address.0);
        }
        Self { start_address: PhysAddr::new(address.as_u64() & !(FRAME_SIZE - 1)) }
    }

    pub fn start_address(self) -> (r: PhysAddr)
        ensures
            r == self.start_address,
    {
        self.start_address
    }

    /// Zero-based physical frame number.
    pub fn number(self) -> (r: u64)
        ensures
            r == self.start() / FRAME_SIZE,
    {
        self.start_address.as_u64() / FRAME_SIZE
    }
}

/// Memory-map type of regions that are free for the kernel to use.
pub const MEMMAP_USABLE: u64 = 0;
/// Memory-map type of reserved regions.
pub const MEMMAP_RESERVED: u64 = 1;
/// Memory-map type of ACPI tables that may be reclaimed.
pub const MEMMAP_ACPI_RECLAIMABLE: u64 = 2;
/// Memory-map type of ACPI non-volatile storage.
pub const MEMMAP_ACPI_NVS: u64 = 3;
/// Memory-map type of defective memory.
pub const MEMMAP_BAD_MEMORY: u64 = 4;
/// Memory-map type of memory the bootloader may hand back.
pub const MEMMAP_BOOTLOADER_RECLAIMABLE: u64 = 5;
/// Memory-map type of the kernel image and its modules.
pub const MEMMAP_EXECUTABLE_AND_MODULES: u64 = 6;
/// Memory-map type of the framebuffer.
pub const MEMMAP_FRAMEBUFFER: u64 = 7;

/// One entry of the boot memory map: `length` bytes from `base`, of type `kind`.
#[derive(Clone, Copy, Debug, PartialEq, Eq, Structural)]
pub struct MemoryRegion {
    pub base: u64,
    pub length: u64,
    pub kind: u64,
}

/// Whether no region's end overflows a `u64`.
pub open spec fn ends_fit(map: Seq<MemoryRegion>) -> bool {
    forall|k: int| 0 <= k < map.len() ==> #[trigger] map[k].base + map[k].length <= u64::MAX
}

/// The highest end address of any region (0 for an empty map).
pub open spec fn max_end(map: Seq<MemoryRegion>) -> int
    decreases map.len(),
{
    if map.len() == 0 {
        0
    } else {
        let rest = max_end(map.drop_last());
        let end = map.last().base + map.last().length;
        if end > rest {
            end
        } else {
            rest
        }
    }
}

/// `value` rounded up to a frame boundary.
pub open spec fn spec_align_up(value: int) -> int {
    ((value + 4095) / 4096) * 4096
}

/// First frame number wholly inside a region.
pub open spec fn first_frame(r: MemoryRegion) -> int {
    (r.base + 4095) / 4096
}

/// One past the last frame number wholly inside a region.
pub open spec fn end_frame(r: MemoryRegion) -> int {
    (r.base + r.length) / 4096
}

/// Whether frame `i` lies wholly inside a usable region among the first `n`.
pub open spec fn covered(map: Seq<MemoryRegion>, n: int, i: int) -> bool {
    exists|k: int|
        0 <= k < n && #[trigger] map[k].kind == MEMMAP_USABLE && first_frame(map[k]) <= i
            < end_frame(map[k])
}

/// Whether usable region `k` cannot be made free: its base cannot be rounded
/// up, or it shares a frame with an earlier usable region.
pub open spec fn region_fails(map: Seq<MemoryRegion>, k: int) -> bool {
    &&& map[k].kind == MEMMAP_USABLE
    &&& (map[k].base + 4095 > u64::MAX || exists|i: int|
        first_frame(map[k]) <= i < end_frame(map[k]) && #[trigger] covered(map, k, i))
}

/// First-fit placement of `size` bytes: the rounded-up start of the first
/// usable region, from region `k` on, that holds them. `None` when none
/// does, or when rounding a usable region's base (or adding `size` to it)
/// overflows before a fit is found.
pub open spec fn spec_find_from(map: Seq<MemoryRegion>, k: int, size: int) -> Option<u64>
    decreases map.len() - k,
{
    if k < 0 || k >= map.len() {
        None
    } else if map[k].kind != MEMMAP_USABLE {
        spec_find_from(map, k + 1, size)
    } else if map[k].base + 4095 > u64::MAX || map[k].base + map[k].length > u64::MAX {
        None
    } else if spec_align_up(map[k].base as int) + size > u64::MAX {
        None
    } else if spec_align_up(map[k].base as int) + size <= map[k].base + map[k].length {
        Some(spec_align_up(map[k].base as int) as u64)
    } else {
        spec_find_from(map, k + 1, size)
    }
}

/// Whether frame `i` lies wholly inside a usable region of `map` and
/// outside the bitmap reservation of `size` bytes at `start`.
pub open spec fn frame_usable(map: Seq<MemoryRegion>, start: PhysAddr, size: u64, i: int) -> bool {
    covered(map, map.len() as int, i) && !(start.0 / 4096 <= i < (start.0 + size) / 4096)
}

/// What initializing the frame allocator from `map` yields: the bitmap's
/// location and size and the allocation state of every frame, or the error.
///
/// Frames are free exactly when they lie wholly inside a usable region and
/// outside the bitmap, which sits at the start of the first usable region
/// that holds it; the bitmap keeps one bit per frame up to the highest end
/// address, rounded up to whole frames.
pub open spec fn spec_frame_allocator_init(map: Seq<MemoryRegion>, hhdm_offset: u64) -> Result<
    (PhysAddr, u64, Seq<bool>),
    FrameAllocatorError,
> {
    if map.len() == 0 {
        Err(FrameAllocatorError::EmptyMemoryMap)
    } else if !ends_fit(map) {
        Err(FrameAllocatorError::InvalidMemoryMapEntry)
    } else if max_end(map) + 4095 > u64::MAX {
        Err(FrameAllocatorError::AddressSpaceTooLarge)
    } else {
        let frame_count = (max_end(map) + 4095) / 4096;
        let bitmap_size = spec_align_up((frame_count + 7) / 8);
        match spec_find_from(map, 0, bitmap_size) {
            None => Err(FrameAllocatorError::NoSpaceForBitmap),
            Some(start) => {
                if hhdm_offset + start > u64::MAX {
                    Err(FrameAllocatorError::HhdmAddressOverflow)
                } else if bitmap_size / 8 > usize::MAX / 64 {
                    Err(FrameAllocatorError::BitmapTooLarge)
                } else if exists|k: int| 0 <= k < map.len() && #[trigger] region_fails(map, k) {
                    Err(FrameAllocatorError::InvalidMemoryMapEntry)
                } else {
                    Ok(
                        (
                            PhysAddr(start),
                            bitmap_size as u64,
                            Seq::new(
                                frame_count as nat,
                                |i: int|
                                    !covered(map, map.len() as int, i) || (start / 4096 <= i
                                        < (start + bitmap_size) / 4096),
                            ),
                        ),
                    )
                }
            },
        }
    }
}

/// A call on the frame allocator: an allocation, or giving back the frame
/// with the given number.
pub enum FrameCall {
    Allocate,
    Deallocate(u64),
}

/// The allocation state after `calls`, made from the state `v`, and the
/// numbers of the frames the allocations handed out.
pub open spec fn run_frame_calls(v: Seq<bool>, calls: Seq<FrameCall>) -> (Seq<bool>, Set<int>)
    decreases calls.len(),
{
    if calls.len() == 0 {
        (v, Set::empty())
    } else {
        let (w, out) = run_frame_calls(v, calls.drop_last());
        match calls.last() {
            FrameCall::Allocate => match lowest_free(w) {
                None => (w, out),
                Some(n) => (w.update(n, true), out.insert(n)),
            },
            FrameCall::Deallocate(n) => if n < w.len() && w[n as int] {
                (w.update(n as int, false), out)
            } else {
                (w, out)
            },
        }
    }
}

/// Whether every frame that `calls` give back was handed out by an earlier
/// allocation among them.
pub open spec fn gives_back_only_handed_out(v: Seq<bool>, calls: Seq<FrameCall>) -> bool {
    forall|k: int|
        0 <= k < calls.len() && #[trigger] calls[k] is Deallocate ==> run_frame_calls(
            v,
            calls.take(k),
        ).1.contains(calls[k]->Deallocate_0 as int)
}

/// Whether every free frame of `v` is usable.
pub open spec fn free_usable_in(v: Seq<bool>, map: Seq<MemoryRegion>, start: PhysAddr, size: u64) -> bool {
    forall|i: int| 0 <= i < v.len() && !v[i] ==> #[trigger] frame_usable(map, start, size, i)
}

/// Induction behind [`law_handed_out_frames_usable`].
proof fn lemma_run_frame_calls_usable(
    v: Seq<bool>,
    calls: Seq<FrameCall>,
    map: Seq<MemoryRegion>,
    start: PhysAddr,
    size: u64,
)
    requires
        free_usable_in(v, map, start, size),
        gives_back_only_handed_out(v, calls),
    ensures
        run_frame_calls(v, calls).0.len() == v.len(),
        free_usable_in(run_frame_calls(v, calls).0, map, start, size),
        forall|n: int| #[trigger] run_frame_calls(v, calls).1.contains(n) ==> frame_usable(map, start, size, n),
    decreases calls.len(),
{
    if calls.len() > 0 {
        let prefix = calls.drop_last();
        assert forall|k: int| 0 <= k < prefix.len() && #[trigger] prefix[k] is Deallocate implies run_frame_calls(
            v,
            prefix.take(k),
        ).1.contains(prefix[k]->Deallocate_0 as int) by {
            assert(prefix.take(k) =~= calls.take(k));
            assert(calls[k] is Deallocate);
        }
        lemma_run_frame_calls_usable(v, prefix, map, start, size);
        let (w, out) = run_frame_calls(v, prefix);
        let last = (calls.len() - 1) as int;
        assert(calls.take(last) =~= prefix);
        match calls.last() {
            FrameCall::Allocate => {
                if let Some(n) = lowest_free(w) {
                    assert(is_lowest_free(w, n)) by {
                        let k = choose|k: int| #[trigger] is_lowest_free(w, k);
                    }
                    assert(frame_usable(map, start, size, n));
                    let w2 = w.update(n, true);
                    assert forall|i: int| 0 <= i < w2.len() && !w2[i] implies #[trigger] frame_usable(
                        map,
                        start,
                        size,
                        i,
                    ) by {
                        assert(!w[i]);
                    }
                }
            },
            FrameCall::Deallocate(n) => {
                assert(calls[last] is Deallocate);
                assert(out.contains(n as int));
                if n < w.len() && w[n as int] {
                    let w2 = w.update(n as int, false);
                    assert forall|i: int| 0 <= i < w2.len() && !w2[i] implies #[trigger] frame_usable(
                        map,
                        start,
                        size,
                        i,
                    ) by {
                        if i != n {
                            assert(!w[i]);
                        }
                    }
                }
            },
        }
    }
}

/// Every frame the allocator hands out lies wholly inside a usable region
/// of the memory map and outside the bitmap: after initialization from
/// `map`, whatever allocations follow, and whatever deallocations of frames
/// that earlier allocations handed out.
pub proof fn law_handed_out_frames_usable(map: Seq<MemoryRegion>, hhdm_offset: u64, calls: Seq<FrameCall>)
    requires
        spec_frame_allocator_init(map, hhdm_offset) is Ok,
        gives_back_only_handed_out(spec_frame_allocator_init(map, hhdm_offset)->Ok_0.2, calls),
    ensures
        ({
            let (start, size, view) = spec_frame_allocator_init(map, hhdm_offset)->Ok_0;
            forall|n: int| #[trigger] run_frame_calls(view, calls).1.contains(n) ==> frame_usable(map, start, size, n)
        }),
{
    let (start, size, view) = spec_frame_allocator_init(map, hhdm_offset)->Ok_0;
    assert forall|i: int| 0 <= i < view.len() && !view[i] implies #[trigger] frame_usable(map, start, size, i) by {
    }
    lemma_run_frame_calls_usable(view, calls, map, start, size);
}

/// Adding one more region to the prefix adds exactly that region's frames.
pub proof fn lemma_covered_step(map: Seq<MemoryRegion>, k: int, i: int)
    requires
        0 <= k < map.len(),
    ensures
        covered(map, k + 1, i) == (covered(map, k, i) || (map[k].kind == MEMMAP_USABLE
            && first_frame(map[k]) <= i < end_frame(map[k]))),
{
    if covered(map, k + 1, i) {
        let j = choose|j: int|
            0 <= j < k + 1 && #[trigger] map[j].kind == MEMMAP_USABLE && first_frame(map[j]) <= i
                < end_frame(map[j]);
        if j < k {
            assert(covered(map, k, i));
        }
    }
    if covered(map, k, i) {
        let j = choose|j: int|
            0 <= j < k && #[trigger] map[j].kind == MEMMAP_USABLE && first_frame(map[j]) <= i
                < end_frame(map[j]);
        assert(0 <= j < k + 1 && map[j].kind == MEMMAP_USABLE);
    }
    if map[k].kind == MEMMAP_USABLE && first_frame(map[k]) <= i < end_frame(map[k]) {
        assert(0 <= k < k + 1 && map[k].kind == MEMMAP_USABLE);
    }
}

/// Every region ends at or below the highest end address.
pub proof fn lemma_max_end_bound(map: Seq<MemoryRegion>, k: int)
    requires
        0 <= k < map.len(),
    ensures
        map[k].base + map[k].length <= max_end(map),
        0 <= max_end(map),
    decreases map.len(),
{
    if k < map.len() - 1 {
        lemma_max_end_bound(map.drop_last(), k);
    } else if map.len() > 1 {
        lemma_max_end_bound(map.drop_last(), 0);
    }
}

/// The highest end address fits in a `u64` when every region's end does.
pub proof fn lemma_max_end_fits(map: Seq<MemoryRegion>)
    requires
        ends_fit(map),
    ensures
        0 <= max_end(map) <= u64::MAX,
    decreases map.len(),
{
    if map.len() > 0 {
        assert(ends_fit(map.drop_last())) by {
            assert forall|k: int| 0 <= k < map.drop_last().len() implies #[trigger] map.drop_last()[k].base
                + map.drop_last()[k].length <= u64::MAX by {
                assert(map.drop_last()[k] == map[k]);
            }
        }
        lemma_max_end_fits(map.drop_last());
        assert(map.last().base + map.last().length <= u64::MAX);
    }
}

/// A first-fit placement comes from a usable region that holds it.
pub proof fn lemma_find_from_some(map: Seq<MemoryRegion>, k: int, size: int)
    requires
        spec_find_from(map, k, size) is Some,
    ensures
        exists|j: int|
            k <= j < map.len() && #[trigger] map[j].kind == MEMMAP_USABLE && map[j].base + 4095
                <= u64::MAX && spec_find_from(map, k, size) == Some(
                spec_align_up(map[j].base as int) as u64,
            ) && spec_align_up(map[j].base as int) + size <= map[j].base + map[j].length,
    decreases map.len() - k,
{
    if 0 <= k < map.len() {
        if map[k].kind != MEMMAP_USABLE {
            lemma_find_from_some(map, k + 1, size);
        } else if !(spec_align_up(map[k].base as int) + size <= map[k].base + map[k].length) {
            lemma_find_from_some(map, k + 1, size);
        }
    }
}

/// Errors that can occur while initializing the frame allocator.
#[derive(Debug, Clone, Copy, PartialEq, Eq, Structural)]
pub enum FrameAllocatorError {
    /// The memory map was empty.
    EmptyMemoryMap,
    /// A memory-map entry's base + length overflowed.
    InvalidMemoryMapEntry,
    /// The physical address space was too large to represent.
    AddressSpaceTooLarge,
    /// Calculating the bitmap size overflowed.
    BitmapSizeOverflow,
    /// No usable region was large enough to contain the bitmap.
    NoSpaceForBitmap,
    /// The HHDM offset plus the bitmap's physical address overflowed.
    HhdmAddressOverflow,
    /// The bitmap address was not aligned.
    BitmapMisaligned,
    /// The bitmap was too large for the current platform's `usize`.
    BitmapTooLarge,
    /// The bitmap overlapped something unexpectedly.
    BitmapOverlap,
}

/// Errors that can occur when manipulating individual frames.
#[derive(Debug, Clone, Copy, PartialEq, Eq, Structural)]
pub enum FrameError {
    /// Frame is outside the physical address space represented by the bitmap.
    InvalidFrame,
    /// Attempted to free a frame that was already free.
    DoubleFree,
    /// Attempted to allocate a frame that was already allocated.
    AlreadyAllocated,
}

/// Basic interface expected by the virtual-memory subsystem.
///
/// Page-table code depends on this trait rather than on the bitmap
/// implementation.
pub trait FrameAllocator {
    /// Whether the allocator's bookkeeping is consistent.
    spec fn allocator_wf(&self) -> bool;

    fn allocate(&mut self) -> (r: Option<PhysFrame>)
        requires
            old(self).allocator_wf(),
        ensures
            final(self).allocator_wf(),
    ;

    fn deallocate(&mut self, frame: PhysFrame) -> (r: Result<(), FrameError>)
        requires
            old(self).allocator_wf(),
        ensures
            final(self).allocator_wf(),
    ;
}

/// Statistics useful for debugging the physical memory manager.
#[derive(Debug, Clone, Copy)]
pub struct FrameAllocatorStats {
    pub total_frames: u64,
    pub free_frames: u64,
    pub allocated_frames: u64,
    pub bitmap_start: PhysAddr,
    pub bitmap_size: u64,
}

/// Bitmap-backed physical frame allocator.
///
/// One bit per physical frame: 0 = free, 1 = allocated. The bits are kept
/// in a vector of the allocator's own; the frames of the first usable
/// region that could hold them are reserved for them all the same, so that
/// a kernel may keep the bitmap there.
///
/// Every frame starts as allocated; only usable regions of the memory map
/// are marked free, and the reserved frames are marked allocated again.
pub struct BitmapFrameAllocator {
    /// One bit per physical frame.
    bitmap: Vec<u64>,
    /// Number of physical frames represented by the bitmap.
    frame_count: u64,
    /// Number of currently free frames.
    free_frames: u64,
    /// Start of the physical frames reserved for the bitmap.
    bitmap_start: PhysAddr,
    /// Size in bytes of that reservation, in whole frames.
    bitmap_size: u64,
    /// Bitmap word at which the next allocation scan begins.
    next_word: usize,
    /// Numbers of the frames that lie in usable memory outside the bitmap,
    /// as the memory map given at initialization places them.
    usable: Ghost<Set<int>>,
}

impl View for BitmapFrameAllocator {
    /// Allocation state of every frame, indexed by frame number.
    type V = Seq<bool>;

    closed spec fn view(&self) -> Seq<bool> {
        bits_view(self.bitmap@, self.frame_count as nat)
    }
}

impl BitmapFrameAllocator {
    /// Internal consistency of the allocator.
    pub closed spec fn wf(&self) -> bool {
        &&& self.frame_count <= self.bitmap@.len() * 64
        &&& self.bitmap@.len() * 64 <= usize::MAX
        &&& self.frame_count * FRAME_SIZE <= u64::MAX
        &&& self.free_frames == count_free(self@)
        &&& self.next_word <= self.bitmap@.len()
        // Padding bits past the last frame stay allocated.
        &&& forall|i: int|
            self.frame_count <= i < self.bitmap@.len() * 64 ==> #[trigger] word_bit(
                self.bitmap@,
                i,
            )
            // Every frame in the words before the scan cursor is allocated.
        &&& forall|i: int| 0 <= i < self.next_word * 64 ==> #[trigger] word_bit(self.bitmap@, i)
    }

    /// Start of the physical frames reserved for the bitmap.
    pub closed spec fn spec_bitmap_start(&self) -> PhysAddr {
        self.bitmap_start
    }

    /// Size of the bitmap reservation.
    pub closed spec fn spec_bitmap_size(&self) -> u64 {
        self.bitmap_size
    }

    /// Numbers of the frames that lie wholly inside a usable region of the
    /// memory map given at initialization and outside the bitmap.
    pub closed spec fn usable_frames(&self) -> Set<int> {
        self.usable@
    }

    /// Whether every free frame is a usable one.
    pub open spec fn free_frames_usable(&self) -> bool {
        forall|i: int| 0 <= i < self@.len() && !self@[i] ==> #[trigger] self.usable_frames().contains(i)
    }

    /// The number of frames fits, in bytes, in a `u64`.
    pub proof fn lemma_wf_bounds(&self)
        requires
            self.wf(),
        ensures
            self@.len() * FRAME_SIZE <= u64::MAX,
            count_free(self@) <= self@.len(),
    {
        lemma_count_free_le(self@);
    }

    /// Number of physical frames represented by this allocator.
    pub fn total_frames(&self) -> (r: u64)
        requires
            self.wf(),
        ensures
            r == self@.len(),
    {
        self.frame_count
    }

    /// Number of currently free frames.
    pub fn free_frames(&self) -> (r: u64)
        requires
            self.wf(),
        ensures
            r == count_free(self@),
    {
        self.free_frames
    }

    /// Number of currently allocated frames.
    pub fn allocated_frames(&self) -> (r: u64)
        requires
            self.wf(),
        ensures
            r == self@.len() - count_free(self@),
    {
        proof {
            lemma_count_free_le(self@);
        }
        self.frame_count - self.free_frames
    }

    /// Return useful allocator statistics.
    pub fn stats(&self) -> (r: FrameAllocatorStats)
        requires
            self.wf(),
        ensures
            r.total_frames == self@.len(),
            r.free_frames == count_free(self@),
            r.allocated_frames == self@.len() - count_free(self@),
            r.bitmap_start == self.spec_bitmap_start(),
            r.bitmap_size == self.spec_bitmap_size(),
    {
        FrameAllocatorStats {
            total_frames: self.frame_count,
            free_frames: self.free_frames,
            allocated_frames: self.allocated_frames(),
            bitmap_start: self.bitmap_start,
            bitmap_size: self.bitmap_size,
        }
    }

    /// Start of the physical frames reserved for the bitmap.
    pub fn bitmap_start(&self) -> (r: PhysAddr)
        ensures
            r == self.spec_bitmap_start(),
    {
        self.bitmap_start
    }

    /// Size of the bitmap reservation.
    pub fn bitmap_size(&self) -> (r: u64)
        ensures
            r == self.spec_bitmap_size(),
    {
        self.bitmap_size
    }

    /// Check whether a particular frame is currently free.
    pub fn is_free(&self, frame: PhysFrame) -> (r: Result<bool, FrameError>)
        requires
            self.wf(),
        ensures
            frame.start() / FRAME_SIZE >= self@.len() ==> r == Err::<bool, FrameError>(
                FrameError::InvalidFrame,
            ),
            frame.start() / FRAME_SIZE < self@.len() ==> r == Ok::<bool, FrameError>(
                !self@[(frame.start() / FRAME_SIZE) as int],
            ),
    {
        let index = self.frame_index(frame)?;
        Ok(!test_bit(&self.bitmap, index))
    }

    /// Convert a frame into a bitmap index.
    fn frame_index(&self, frame: PhysFrame) -> (r: Result<usize, FrameError>)
        requires
            self.wf(),
        ensures
            frame.start() / FRAME_SIZE >= self@.len() ==> r == Err::<usize, FrameError>(
                FrameError::InvalidFrame,
            ),
            frame.start() / FRAME_SIZE < self@.len() ==> r == Ok::<usize, FrameError>(
                (frame.start() / FRAME_SIZE) as usize,
            ),
    {
        let frame_number = frame.number();
        if frame_number >= self.frame_count {
            return Err(FrameError::InvalidFrame);
        }
        Ok(frame_number as usize)
    }

    /// Mark a frame as free.
    fn mark_free(&mut self, frame: PhysFrame) -> (r: Result<(), FrameError>)
        requires
            old(self).wf(),
        ensures
            final(self).usable_frames() == old(self).usable_frames(),
            final(self).wf(),
            final(self).spec_bitmap_start() == old(self).spec_bitmap_start(),
            final(self).spec_bitmap_size() == old(self).spec_bitmap_size(),
            ({
                let n = frame.start() / FRAME_SIZE;
                if n >= old(self)@.len() {
                    r == Err::<(), FrameError>(FrameError::InvalidFrame) && final(self)@ == old(
                        self,
                    )@
                } else if !old(self)@[n as int] {
                    r == Err::<(), FrameError>(FrameError::DoubleFree) && final(self)@ == old(
                        self,
                    )@
                } else {
                    r == Ok::<(), FrameError>(()) && final(self)@ == old(self)@.update(
                        n as int,
                        false,
                    )
                }
            }),
    {
        let index = self.frame_index(frame)?;
        let word_index = index / 64;
        if !test_bit(&self.bitmap, index) {
            return Err(FrameError::DoubleFree);
        }
        let ghost old_words = self.bitmap@;
        let ghost old_view = self@;
        clear_bit(&mut self.bitmap, index);
        proof {
            lemma_view_clear(old_words, self.bitmap@, self.frame_count as nat, index as int);
            lemma_count_free_update(old_view, index as int, false);
            lemma_count_free_le(self@);
        }
        self.free_frames = self.free_frames + 1;
        if word_index < self.next_word {
            self.next_word = word_index;
        }
        proof {
            assert forall|i: int| 0 <= i < self.next_word * 64 implies #[trigger] word_bit(
                self.bitmap@,
                i,
            ) by {
                assert(word_bit(old_words, i));
                assert(i != index);
            }
        }
        Ok(())
    }

    /// Mark a frame as allocated.
    fn mark_allocated(&mut self, frame: PhysFrame) -> (r: Result<(), FrameError>)
        requires
            old(self).wf(),
        ensures
            final(self).usable_frames() == old(self).usable_frames(),
            final(self).wf(),
            final(self).spec_bitmap_start() == old(self).spec_bitmap_start(),
            final(self).spec_bitmap_size() == old(self).spec_bitmap_size(),
            ({
                let n = frame.start() / FRAME_SIZE;
                if n >= old(self)@.len() {
                    r == Err::<(), FrameError>(FrameError::InvalidFrame) && final(self)@ == old(
                        self,
                    )@
                } else if old(self)@[n as int] {
                    r == Err::<(), FrameError>(FrameError::AlreadyAllocated) && final(self)@
                        == old(self)@
                } else {
                    r == Ok::<(), FrameError>(()) && final(self)@ == old(self)@.update(
                        n as int,
                        true,
                    )
                }
            }),
    {
        let index = self.frame_index(frame)?;
        if test_bit(&self.bitmap, index) {
            return Err(FrameError::AlreadyAllocated);
        }
        let ghost old_words = self.bitmap@;
        let ghost old_view = self@;
        set_bit(&mut self.bitmap, index);
        proof {
            lemma_view_set(old_words, self.bitmap@, self.frame_count as nat, index as int);
            lemma_count_free_update(old_view, index as int, true);
        }
        self.free_frames = self.free_frames - 1;
        Ok(())
    }

    /// Consistency check: recount the free frames in the bitmap and compare
    /// the count with the cached one. Always `true` for a well-formed allocator.
    pub fn verify(&self) -> (r: bool)
        requires
            self.wf(),
        ensures
            r,
    {
        let mut free_count: u64 = 0;
        let mut index: u64 = 0;
        while index < self.frame_count
            invariant
                self.wf(),
                index <= self.frame_count,
                free_count == count_free(self@.take(index as int)),
            decreases self.frame_count - index,
        {
            proof {
                assert(self@.take(index + 1).drop_last() =~= self@.take(index as int));
                lemma_count_free_le(self@.take(index as int));
            }
            if !test_bit(&self.bitmap, index as usize) {
                free_count = free_count + 1;
            }
            index = index + 1;
        }
        proof {
            assert(self@.take(index as int) =~= self@);
        }
        free_count == self.free_frames
    }

    /// Find and allocate the lowest-numbered free frame.
    fn allocate_inner(&mut self) -> (r: Option<PhysFrame>)
        requires
            old(self).wf(),
        ensures
            final(self).usable_frames() == old(self).usable_frames(),
            final(self).wf(),
            final(self).spec_bitmap_start() == old(self).spec_bitmap_start(),
            final(self).spec_bitmap_size() == old(self).spec_bitmap_size(),
            match r {
                None => count_free(old(self)@) == 0 && final(self)@ == old(self)@,
                Some(frame) => {
                    let n = frame.start() / FRAME_SIZE;
                    &&& frame.aligned()
                    &&& n < old(self)@.len()
                    &&& !old(self)@[n as int]
                    &&& forall|j: int| 0 <= j < n ==> #[trigger] old(self)@[j]
                    &&& final(self)@ == old(self)@.update(n as int, true)
                },
            },
    {
        if self.free_frames == 0 {
            return None;
        }
        let word_count = self.bitmap.len();
        let mut word_index = self.next_word;
        while word_index < word_count
            invariant
                self.wf(),
                self.bitmap_start == old(self).bitmap_start,
                self.bitmap_size == old(self).bitmap_size,
                self.usable == old(self).usable,
                self.bitmap@ == old(self).bitmap@,
                self.frame_count == old(self).frame_count,
                word_count == self.bitmap@.len(),
                self.next_word <= word_index <= word_count,
                self.free_frames > 0,
                forall|i: int| 0 <= i < word_index * 64 ==> #[trigger] word_bit(self.bitmap@, i),
            decreases word_count - word_index,
        {
            let word = self.bitmap[word_index];
            if word == u64::MAX {
                proof {
                    lemma_full_word_bits(self.bitmap@, word_index as int);
                }
                word_index = word_index + 1;
                continue;
            }
            proof {
                lemma_first_free_in_word(self.bitmap@, word_index as int);
            }
            let bit_index = (!word).trailing_zeros() as usize;
            let frame_index = word_index * 64 + bit_index;
            if frame_index as u64 >= self.frame_count {
                // Padding bits are never free.
                proof {
                    assert(word_bit(self.bitmap@, frame_index as int));
                }
                word_index = word_index + 1;
                continue;
            }
            let ghost old_words = self.bitmap@;
            let ghost old_view = self@;
            set_bit(&mut self.bitmap, frame_index);
            proof {
                lemma_view_set(old_words, self.bitmap@, self.frame_count as nat, frame_index as int);
                lemma_count_free_update(old_view, frame_index as int, true);
                assert forall|j: int| 0 <= j < frame_index implies #[trigger] old_view[j] by {
                    assert(word_bit(old_words, j));
                }
            }
            self.free_frames = self.free_frames - 1;
            self.next_word = word_index;
            proof {
                assert forall|i: int| 0 <= i < self.next_word * 64 implies #[trigger] word_bit(
                    self.bitmap@,
                    i,
                ) by {
                    assert(word_bit(old_words, i));
                }
            }
            let address = frame_index as u64 * FRAME_SIZE;
            return Some(PhysFrame { start_address: PhysAddr::new(address) });
        }
        proof {
            assert forall|i: int| 0 <= i < self@.len() implies #[trigger] self@[i] by {
                assert(word_bit(self.bitmap@, i));
            }
            lemma_count_free_all_set(self@);
        }
        None
    }
}

impl BitmapFrameAllocator {
    /// Initialize the frame allocator from the boot memory map.
    ///
    /// `hhdm_offset` is the offset of the higher-half direct map; the
    /// bitmap's direct-map address must not overflow. The result is exactly
    /// [`spec_frame_allocator_init`].
    pub fn new(memory_map: &[MemoryRegion], hhdm_offset: u64) -> (r: Result<
        Self,
        FrameAllocatorError,
    >)
        ensures
            match spec_frame_allocator_init(memory_map@, hhdm_offset) {
                Err(e) => r == Err::<Self, FrameAllocatorError>(e),
                Ok((start, size, view)) => r matches Ok(a) && a.wf() && a@ == view
                    && a.spec_bitmap_start() == start && a.spec_bitmap_size() == size
                    && a.usable_frames() == Set::new(
                    |i: int| frame_usable(memory_map@, start, size, i),
                ) && a.free_frames_usable(),
            },
    {
        let ghost map = memory_map@;
        if memory_map.len() == 0 {
            return Err(FrameAllocatorError::EmptyMemoryMap);
        }
        // 1. The highest physical address.

        let highest_address = highest_physical_address(memory_map)?;

        // 2. How many 4 KiB frames exist.
        let frame_count = match highest_address.checked_add(FRAME_SIZE - 1) {
            Some(v) => v / FRAME_SIZE,
            None => return Err(FrameAllocatorError::AddressSpaceTooLarge),
        };
        // 3. One bit per frame, reserved in whole frames.
        let bitmap_size = bitmap_size_for_frames(frame_count)?;
        let bitmap_size_aligned = match align_up(bitmap_size, FRAME_SIZE) {
            Some(v) => v,
            None => return Err(FrameAllocatorError::BitmapSizeOverflow),
        };
        proof {
            lemma_max_end_fits(map);
            assert(highest_address == max_end(map));
            assert(frame_count == (max_end(map) + 4095) / 4096);
            assert(bitmap_size == (frame_count + 7) / 8);
            assert(bitmap_size_aligned == spec_align_up((frame_count + 7) / 8));
        }
        // 4. A usable physical region for the bitmap.
        let bitmap_start = match find_bitmap_location(memory_map, bitmap_size_aligned) {
            Some(a) => a,
            None => return Err(FrameAllocatorError::NoSpaceForBitmap),
        };
        proof {
            lemma_find_from_some(map, 0, bitmap_size_aligned as int);
        }
        let ghost k0 = choose|j: int|
            0 <= j < map.len() && #[trigger] map[j].kind == MEMMAP_USABLE && map[j].base + 4095
                <= u64::MAX && spec_find_from(map, 0, bitmap_size_aligned as int) == Some(
                spec_align_up(map[j].base as int) as u64,
            ) && spec_align_up(map[j].base as int) + bitmap_size_aligned <= map[j].base
                + map[j].length;
        if !bitmap_start.is_aligned() {
            return Err(FrameAllocatorError::BitmapMisaligned);
        }
        // 5. The bitmap's address in the direct map.
        if hhdm_offset.checked_add(bitmap_start.as_u64()).is_none() {
            return Err(FrameAllocatorError::HhdmAddressOverflow);
        }
        // 6. The bitmap itself, with every frame allocated.
        let bitmap_words_u64 = bitmap_size_aligned / 8;
        if bitmap_words_u64 > (usize::MAX / 64) as u64 {
            return Err(FrameAllocatorError::BitmapTooLarge);
        }
        let bitmap_words = bitmap_words_u64 as usize;
        let mut bitmap: Vec<u64> = Vec::new();
        while bitmap.len() < bitmap_words
            invariant
                bitmap@.len() <= bitmap_words,
                forall|w: int| 0 <= w < bitmap@.len() ==> bitmap@[w] == 0xffff_ffff_ffff_ffffu64,
            decreases bitmap_words - bitmap@.len(),
        {
            bitmap.push(u64::MAX);
        }
        let mut allocator = Self {
            bitmap,
            frame_count,
            free_frames: 0,
            bitmap_start,
            bitmap_size: bitmap_size_aligned,
            next_word: 0,
            usable: Ghost(Set::new(|i: int| frame_usable(map, bitmap_start, bitmap_size_aligned, i))),
        };
        proof {
            assert forall|i: int| 0 <= i < allocator.bitmap@.len() * 64 implies #[trigger] word_bit(
                allocator.bitmap@,
                i,
            ) by {
                lemma_full_word_bits(allocator.bitmap@, i / 64);
            }
            lemma_count_free_all_set(allocator@);
            assert(allocator@ =~= Seq::new(frame_count as nat, |i: int| !covered(map, 0, i)));
        }
        // 7. Make only usable memory available.

        let mut k: usize = 0;
        while k < memory_map.len()
            invariant
                map == memory_map@,
                allocator.wf(),
                allocator.frame_count == frame_count,
                allocator.bitmap_start == bitmap_start,
                allocator.bitmap_size == bitmap_size_aligned,
                allocator.usable@ == Set::new(|i: int| frame_usable(map, bitmap_start, bitmap_size_aligned, i)),
                0 <= k <= map.len(),
                ends_fit(map),
                max_end(map) <= frame_count * 4096,
                spec_frame_allocator_init(map, hhdm_offset) is Err ==> spec_frame_allocator_init(
                    map,
                    hhdm_offset,
                ) == Err::<(PhysAddr, u64, Seq<bool>), FrameAllocatorError>(
                    FrameAllocatorError::InvalidMemoryMapEntry,
                ) && exists|j: int| 0 <= j < map.len() && #[trigger] region_fails(map, j),
                forall|j: int| 0 <= j < k ==> !#[trigger] region_fails(map, j),
                allocator@ =~= Seq::new(frame_count as nat, |i: int| !covered(map, k as int, i)),
            decreases map.len() - k,
        {
            let entry = memory_map[k];
            proof {
                lemma_max_end_bound(map, k as int);
                assert forall|i: int| #![trigger covered(map, k + 1, i)] true implies covered(
                    map,
                    k + 1,
                    i,
                ) == (covered(map, k as int, i) || (map[k as int].kind == MEMMAP_USABLE
                    && first_frame(map[k as int]) <= i < end_frame(map[k as int]))) by {
                    lemma_covered_step(map, k as int, i);
                }
            }
            if entry.kind != MEMMAP_USABLE {
                k = k + 1;
                proof {
                    assert(allocator@ =~= Seq::new(
                        frame_count as nat,
                        |i: int| !covered(map, k as int, i),
                    ));
                }
                continue;
            }
            let region_start = match align_up(entry.base, FRAME_SIZE) {
                Some(v) => v,
                None => {
                    proof {
                        assert(region_fails(map, k as int));
                    }
                    return Err(FrameAllocatorError::InvalidMemoryMapEntry);
                },
            };
            let region_end = match entry.base.checked_add(entry.length) {
                Some(v) => v,
                None => return Err(FrameAllocatorError::InvalidMemoryMapEntry),
            };
            let region_end = align_down(region_end, FRAME_SIZE);
            if region_start >= region_end {
                proof {
                    assert(region_start == first_frame(map[k as int]) * 4096);
                    assert(region_end == end_frame(map[k as int]) * 4096);
                    assert(first_frame(map[k as int]) >= end_frame(map[k as int]));
                }
                k = k + 1;
                proof {
                    assert(!region_fails(map, k - 1));
                    assert(allocator@ =~= Seq::new(
                        frame_count as nat,
                        |i: int| !covered(map, k as int, i),
                    ));
                }
                continue;
            }
            let ghost before = allocator@;
            match allocator.mark_range_free(PhysAddr::new(region_start), PhysAddr::new(region_end)) {
                Ok(()) => {},
                Err(e) => {
                    proof {
                        let i = choose|i: int|
                            region_start / 4096 <= i < region_end / 4096 && !(i < before.len()
                                && #[trigger] before[i]);
                        assert(covered(map, k as int, i));
                        assert(region_fails(map, k as int));
                    }
                    return Err(e);
                },
            }
            proof {
                assert(region_start / 4096 == first_frame(map[k as int]));
                assert(region_end / 4096 == end_frame(map[k as int]));
                assert forall|i: int|
                    first_frame(map[k as int]) <= i < end_frame(
                        map[k as int],
                    ) implies !#[trigger] covered(map, k as int, i) by {
                    assert(before[i]);
                }
            }
            k = k + 1;
            proof {
                assert(!region_fails(map, k - 1));
                assert(allocator@ =~= Seq::new(
                    frame_count as nat,
                    |i: int| !covered(map, k as int, i),
                ));
            }
        }
        // 8. Reserve the bitmap itself.

        let bitmap_end = match bitmap_start.as_u64().checked_add(bitmap_size_aligned) {
            Some(v) => v,
            None => return Err(FrameAllocatorError::BitmapSizeOverflow),
        };
        proof {
            lemma_max_end_bound(map, k0);
            assert forall|i: int|
                bitmap_start.0 / 4096 <= i < bitmap_end / 4096 implies i < allocator@.len()
                && #[trigger] allocator@[i] == false by {
                assert(map[k0].kind == MEMMAP_USABLE && first_frame(map[k0]) <= i < end_frame(
                    map[k0],
                ));
                assert(covered(map, map.len() as int, i));
            }
        }
        let ghost before = allocator@;
        match allocator.mark_range_allocated(bitmap_start, PhysAddr::new(bitmap_end)) {
            Ok(()) => {},
            Err(e) => return Err(e),
        }
        proof {
            assert(forall|j: int| 0 <= j < map.len() ==> !#[trigger] region_fails(map, j));
            assert(allocator@ =~= Seq::new(
                frame_count as nat,
                |i: int|
                    !covered(map, map.len() as int, i) || (bitmap_start.0 / 4096 <= i < (
                    bitmap_start.0 + bitmap_size_aligned) / 4096),
            ));
        }
        Ok(allocator)
    }

    /// Mark a whole aligned physical range as free.
    ///
    /// Fails, with the memory map blamed, when a frame of the range is
    /// outside the bitmap or already free.
    fn mark_range_free(&mut self, start: PhysAddr, end: PhysAddr) -> (r: Result<
        (),
        FrameAllocatorError,
    >)
        requires
            old(self).wf(),
            start.0 % FRAME_SIZE == 0,
            end.0 % FRAME_SIZE == 0,
            start.0 <= end.0,
        ensures
            final(self).wf(),
            final(self).frame_count == old(self).frame_count,
            final(self).bitmap_start == old(self).bitmap_start,
            final(self).bitmap_size == old(self).bitmap_size,
            final(self).usable == old(self).usable,
            (forall|i: int|
                start.0 / 4096 <= i < end.0 / 4096 ==> i < old(self)@.len() && #[trigger] old(
                    self,
                )@[i]) ==> r == Ok::<(), FrameAllocatorError>(()) && final(self)@ == Seq::new(
                old(self)@.len(),
                |i: int|
                    if start.0 / 4096 <= i < end.0 / 4096 {
                        false
                    } else {
                        old(self)@[i]
                    },
            ),
            !(forall|i: int|
                start.0 / 4096 <= i < end.0 / 4096 ==> i < old(self)@.len() && #[trigger] old(
                    self,
                )@[i]) ==> r == Err::<(), FrameAllocatorError>(
                FrameAllocatorError::InvalidMemoryMapEntry,
            ),
    {
        let ghost s = start.0 / 4096;
        let ghost e = end.0 / 4096;
        let ghost old_view = self@;
        let mut address = start.as_u64();
        while address < end.as_u64()
            invariant
                self.wf(),
                self.frame_count == old(self).frame_count,
                self.bitmap_start == old(self).bitmap_start,
                self.bitmap_size == old(self).bitmap_size,
                self.usable == old(self).usable,
                old_view == old(self)@,
                s == start.0 / 4096,
                e == end.0 / 4096,
                start.0 <= address <= end.0,
                address % 4096 == 0,
                end.0 % 4096 == 0,
                address == start.0 || address / 4096 <= old_view.len(),
                forall|i: int| s <= i < address / 4096 ==> #[trigger] old_view[i],
                self@ == Seq::new(
                    old_view.len(),
                    |i: int|
                        if s <= i < address / 4096 {
                            false
                        } else {
                            old_view[i]
                        },
                ),
            decreases end.0 - address,
        {
            let frame = PhysFrame { start_address: PhysAddr::new(address) };
            let ghost before = self@;
            match self.mark_free(frame) {
                Ok(()) => {},
                Err(_) => {
                    proof {
                        let i: int = (address / 4096) as int;
                        assert(start.0 / 4096 <= i < end.0 / 4096);
                        let _ = old(self)@[i];
                        assert(!(i < old(self)@.len() && old(self)@[i]));
                    }
                    return Err(FrameAllocatorError::InvalidMemoryMapEntry);
                },
            }
            address = address + FRAME_SIZE;
            proof {
                assert(self@ =~= Seq::new(
                    old_view.len(),
                    |i: int|
                        if s <= i < address / 4096 {
                            false
                        } else {
                            old_view[i]
                        },
                ));
            }
        }
        proof {
            assert(address == end.0);
            assert forall|i: int| start.0 / 4096 <= i < end.0 / 4096 implies i < old(self)@.len()
                && #[trigger] old(self)@[i] by {
                assert(s <= i < address / 4096);
            }
        }
        Ok(())
    }

    /// Mark a whole aligned physical range as allocated.
    ///
    /// Fails, as an overlap, when a frame of the range is outside the bitmap
    /// or already allocated.
    fn mark_range_allocated(&mut self, start: PhysAddr, end: PhysAddr) -> (r: Result<
        (),
        FrameAllocatorError,
    >)
        requires
            old(self).wf(),
            start.0 % FRAME_SIZE == 0,
            end.0 % FRAME_SIZE == 0,
            start.0 <= end.0,
        ensures
            final(self).wf(),
            final(self).frame_count == old(self).frame_count,
            final(self).bitmap_start == old(self).bitmap_start,
            final(self).bitmap_size == old(self).bitmap_size,
            final(self).usable == old(self).usable,
            (forall|i: int|
                start.0 / 4096 <= i < end.0 / 4096 ==> i < old(self)@.len() && !#[trigger] old(
                    self,
                )@[i]) ==> r == Ok::<(), FrameAllocatorError>(()) && final(self)@ == Seq::new(
                old(self)@.len(),
                |i: int|
                    if start.0 / 4096 <= i < end.0 / 4096 {
                        true
                    } else {
                        old(self)@[i]
                    },
            ),
            !(forall|i: int|
                start.0 / 4096 <= i < end.0 / 4096 ==> i < old(self)@.len() && !#[trigger] old(
                    self,
                )@[i]) ==> r == Err::<(), FrameAllocatorError>(FrameAllocatorError::BitmapOverlap),
    {
        let ghost s = start.0 / 4096;
        let ghost e = end.0 / 4096;
        let ghost old_view = self@;
        let mut address = start.as_u64();
        while address < end.as_u64()
            invariant
                self.wf(),
                self.frame_count == old(self).frame_count,
                self.bitmap_start == old(self).bitmap_start,
                self.bitmap_size == old(self).bitmap_size,
                self.usable == old(self).usable,
                old_view == old(self)@,
                s == start.0 / 4096,
                e == end.0 / 4096,
                start.0 <= address <= end.0,
                address % 4096 == 0,
                end.0 % 4096 == 0,
                address == start.0 || address / 4096 <= old_view.len(),
                forall|i: int| s <= i < address / 4096 ==> !#[trigger] old_view[i],
                self@ == Seq::new(
                    old_view.len(),
                    |i: int|
                        if s <= i < address / 4096 {
                            true
                        } else {
                            old_view[i]
                        },
                ),
            decreases end.0 - address,
        {
            let frame = PhysFrame { start_address: PhysAddr::new(address) };
            match self.mark_allocated(frame) {
                Ok(()) => {},
                Err(_) => {
                    proof {
                        let i: int = (address / 4096) as int;
                        assert(start.0 / 4096 <= i < end.0 / 4096);
                        let _ = old(self)@[i];
                        assert(!(i < old(self)@.len() && !old(self)@[i]));
                    }
                    return Err(FrameAllocatorError::BitmapOverlap);
                },
            }
            address = address + FRAME_SIZE;
            proof {
                assert(self@ =~= Seq::new(
                    old_view.len(),
                    |i: int|
                        if s <= i < address / 4096 {
                            true
                        } else {
                            old_view[i]
                        },
                ));
            }
        }
        proof {
            assert(address == end.0);
        }
        proof {
            assert(address == end.0);
            assert forall|i: int| start.0 / 4096 <= i < end.0 / 4096 implies i < old(self)@.len()
                && !#[trigger] old(self)@[i] by {
                assert(s <= i < address / 4096);
            }
        }
        Ok(())
    }
}

impl FrameAllocator for BitmapFrameAllocator {
    open spec fn allocator_wf(&self) -> bool {
        self.wf()
    }

    /// Allocate the lowest-numbered free frame; `None` exactly when no
    /// frame is free.
    fn allocate(&mut self) -> (r: Option<PhysFrame>)
        ensures
            final(self).usable_frames() == old(self).usable_frames(),
            old(self).free_frames_usable() ==> final(self).free_frames_usable(),
            old(self).free_frames_usable() && r is Some ==> old(self).usable_frames().contains(
                (r->Some_0.start() / FRAME_SIZE) as int,
            ),
            final(self).spec_bitmap_start() == old(self).spec_bitmap_start(),
            final(self).spec_bitmap_size() == old(self).spec_bitmap_size(),
            r is None <==> lowest_free(old(self)@) is None,
            r matches Some(frame) ==> lowest_free(old(self)@) == Some(
                (frame.start() / FRAME_SIZE) as int,
            ) && frame.start() == (frame.start() / FRAME_SIZE) * FRAME_SIZE,
            match r {
                None => count_free(old(self)@) == 0 && final(self)@ == old(self)@,
                Some(frame) => {
                    let n = frame.start() / FRAME_SIZE;
                    &&& frame.aligned()
                    &&& n < old(self)@.len()
                    &&& !old(self)@[n as int]
                    &&& forall|j: int| 0 <= j < n ==> #[trigger] old(self)@[j]
                    &&& final(self)@ == old(self)@.update(n as int, true)
                },
            },
    {
        let r = self.allocate_inner();
        proof {
            match r {
                None => lemma_lowest_free_none(old(self)@),
                Some(frame) => lemma_lowest_free_is(
                    old(self)@,
                    (frame.start() / FRAME_SIZE) as int,
                ),
            }
        }
        r
    }

    /// Return a frame: `InvalidFrame` past the last frame, `DoubleFree` for a
    /// frame that is already free.
    fn deallocate(&mut self, frame: PhysFrame) -> (r: Result<(), FrameError>)
        ensures
            final(self).usable_frames() == old(self).usable_frames(),
            old(self).free_frames_usable() && old(self).usable_frames().contains(
                (frame.start() / FRAME_SIZE) as int,
            ) ==> final(self).free_frames_usable(),
            final(self).spec_bitmap_start() == old(self).spec_bitmap_start(),
            final(self).spec_bitmap_size() == old(self).spec_bitmap_size(),
            ({
                let n = frame.start() / FRAME_SIZE;
                if n >= old(self)@.len() {
                    r == Err::<(), FrameError>(FrameError::InvalidFrame) && final(self)@ == old(
                        self,
                    )@
                } else if !old(self)@[n as int] {
                    r == Err::<(), FrameError>(FrameError::DoubleFree) && final(self)@ == old(
                        self,
                    )@
                } else {
                    r == Ok::<(), FrameError>(()) && final(self)@ == old(self)@.update(
                        n as int,
                        false,
                    )
                }
            }),
    {
        self.mark_free(frame)
    }
}

/// Calculate how many bytes are needed for a bitmap containing one bit per
/// physical frame.
fn bitmap_size_for_frames(frame_count: u64) -> (r: Result<u64, FrameAllocatorError>)
    ensures
        frame_count + 7 > u64::MAX ==> r == Err::<u64, FrameAllocatorError>(
            FrameAllocatorError::BitmapSizeOverflow,
        ),
        frame_count + 7 <= u64::MAX ==> r == Ok::<u64, FrameAllocatorError>(
            ((frame_count + 7) / 8) as u64,
        ),
{
    // ceil(frame_count / 8)
    let adjusted = match frame_count.checked_add(7) {
        Some(v) => v,
        None => return Err(FrameAllocatorError::BitmapSizeOverflow),
    };
    Ok(adjusted / 8)
}

/// Find a usable region large enough to contain the bitmap.
///
/// The bitmap goes at the beginning of the first suitable usable region.
fn find_bitmap_location(memory_map: &[MemoryRegion], bitmap_size: u64) -> (r: Option<PhysAddr>)
    ensures
        r == match spec_find_from(memory_map@, 0, bitmap_size as int) {
            Some(start) => Some(PhysAddr(start)),
            None => None::<PhysAddr>,
        },
{
    let mut k: usize = 0;
    while k < memory_map.len()
        invariant
            0 <= k <= memory_map@.len(),
            spec_find_from(memory_map@, 0, bitmap_size as int) == spec_find_from(
                memory_map@,
                k as int,
                bitmap_size as int,
            ),
        decreases memory_map@.len() - k,
    {
        let entry = memory_map[k];
        if entry.kind != MEMMAP_USABLE {
            k = k + 1;
            continue;
        }
        let region_start = align_up(entry.base, FRAME_SIZE)?;
        let region_end = entry.base.checked_add(entry.length)?;
        let bitmap_end = region_start.checked_add(bitmap_size)?;
        if bitmap_end <= region_end {
            return Some(PhysAddr::new(region_start));
        }
        k = k + 1;
    }
    None
}

/// Find the highest physical address represented by the memory map.
fn highest_physical_address(memory_map: &[MemoryRegion]) -> (r: Result<u64, FrameAllocatorError>)
    ensures
        !ends_fit(memory_map@) ==> r == Err::<u64, FrameAllocatorError>(
            FrameAllocatorError::InvalidMemoryMapEntry,
        ),
        ends_fit(memory_map@) ==> r == Ok::<u64, FrameAllocatorError>(
            max_end(memory_map@) as u64,
        ),
{
    let mut highest: u64 = 0;
    let mut k: usize = 0;
    while k < memory_map.len()
        invariant
            0 <= k <= memory_map@.len(),
            highest == max_end(memory_map@.take(k as int)),
            ends_fit(memory_map@.take(k as int)),
        decreases memory_map@.len() - k,
    {
        let entry = memory_map[k];
        proof {
            assert(memory_map@.take(k + 1).drop_last() =~= memory_map@.take(k as int));
        }
        let end = match entry.base.checked_add(entry.length) {
            Some(end) => end,
            None => {
                proof {
                    assert(!ends_fit(memory_map@)) by {
                        assert(memory_map@[k as int].base + memory_map@[k as int].length
                            > u64::MAX);
                    }
                }
                return Err(FrameAllocatorError::InvalidMemoryMapEntry);
            },
        };
        if end > highest {
            highest = end;
        }
        k = k + 1;
        proof {
            assert forall|j: int| 0 <= j < k implies #[trigger] memory_map@.take(k as int)[j].base
                + memory_map@.take(k as int)[j].length <= u64::MAX by {
                if j < k - 1 {
                    assert(memory_map@.take(k as int)[j] == memory_map@.take(k - 1)[j]);
                }
            }
        }
    }
    proof {
        assert(memory_map@.take(k as int) =~= memory_map@);
    }
    Ok(highest)
}

/// Round `value` upward to `alignment`.
///
/// The allocator only ever rounds to frame boundaries.
fn align_up(value: u64, alignment: u64) -> (r: Option<u64>)
    requires
        alignment == FRAME_SIZE,
    ensures
        value + 4095 > u64::MAX ==> r == None::<u64>,
        value + 4095 <= u64::MAX ==> r == Some(spec_align_up(value as int) as u64),
{
    match value.checked_add(alignment - 1) {
        Some(v) => {
            proof {
                lemma_align_down_mask(v);
            }
            Some(v & !(alignment - 1))
        },
        None => None,
    }
}

/// Round `value` downward to `alignment`.
///
/// The allocator only ever rounds to frame boundaries.
fn align_down(value: u64, alignment: u64) -> (r: u64)
    requires
        alignment == FRAME_SIZE,
    ensures
        r == (value / 4096) * 4096,
{
    proof {
        lemma_align_down_mask(value);
    }
    value & !(alignment - 1)
}

} // verus!
