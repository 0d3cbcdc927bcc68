//! Early physical frame allocation, straight from the boot memory map.
//!
//! Frames are handed out in order, region by region, and never reclaimed.
//! This serves until the bitmap allocator takes over.

use vstd::prelude::*;
use crate::memory::frame_alloc::{MemoryRegion, PhysAddr, PhysFrame, FRAME_SIZE, MEMMAP_USABLE};
use crate::kmem::summary::length_of;

verus! {

/// Whether a region type is usable memory.
pub open spec fn is_usable(kind: u64) -> bool {
    kind == MEMMAP_USABLE
}

/// Whether every usable region's base can be rounded up to a frame
/// boundary without overflowing.
pub open spec fn bases_round_up(map: Seq<MemoryRegion>) -> bool {
    forall|k: int| 0 <= k < map.len() && #[trigger] map[k].kind == MEMMAP_USABLE ==> map[k].base
        + 4095 <= u64::MAX
}

/// Whether every usable region's base can be rounded up to a frame
/// boundary: exactly [`bases_round_up`].
pub fn check_bases_round_up(map: &[MemoryRegion]) -> (r: bool)
    ensures
        r == bases_round_up(map@),
{
    let mut i: usize = 0;
    while i < map.len()
        invariant
            i <= map@.len(),
            forall|k: int| 0 <= k < i && #[trigger] map@[k].kind == MEMMAP_USABLE ==> map@[k].base
                + 4095 <= u64::MAX,
        decreases map.len() - i,
    {
        if map[i].kind == MEMMAP_USABLE && map[i].base > u64::MAX - (FRAME_SIZE - 1) {
            return false;
        }
        i = i + 1;
    }
    true
}

/// One allocation from the state (`current`, `next`): the frame handed out,
/// if any, and the state after it.
///
/// Regions that are not usable are skipped, restarting at their successor;
/// a usable region hands out its whole frames in order, from its base
/// rounded up to its end rounded down. A usable region whose end overflows
/// ends the search with nothing handed out and the state where it stood.
pub open spec fn spec_allocate_frame(map: Seq<MemoryRegion>, current: int, next: u64) -> (
    Option<u64>,
    int,
    u64,
)
    decreases map.len() - current,
{
    if current < 0 || current >= map.len() {
        (None, current, next)
    } else if !is_usable(map[current].kind) {
        spec_allocate_frame(map, current + 1, 0)
    } else if map[current].base + map[current].length > u64::MAX {
        (None, current, next)
    } else {
        let region = map[current];
        let start = ((region.base + 4095) / 4096 * 4096) as u64;
        let end = ((region.base + region.length) / 4096 * 4096) as u64;
        let candidate = if next == 0 {
            start
        } else {
            next
        };
        if candidate < end {
            (Some(candidate), current, (candidate + 4096) as u64)
        } else {
            spec_allocate_frame(map, current + 1, 0)
        }
    }
}

/// Physical frame allocator over the boot memory map.
pub struct BootInfoFrameAllocator<'a> {
    memory_map: &'a [MemoryRegion],
    /// Index of the memory-map region currently being allocated from.
    current_region: usize,
    /// Address of the next frame in the current region; 0 before the region
    /// has been started.
    next_frame: u64,
}

impl<'a> BootInfoFrameAllocator<'a> {
    /// The memory map.
    pub closed spec fn regions(&self) -> Seq<MemoryRegion> {
        self.memory_map@
    }

    /// Index of the region being allocated from.
    pub closed spec fn current(&self) -> int {
        self.current_region as int
    }

    /// Next frame address in the current region (0 when not started).
    pub closed spec fn next(&self) -> u64 {
        self.next_frame
    }

    /// Internal consistency: the next frame is on a frame boundary and,
    /// once a region has been started, lies in it at or past its first
    /// whole frame.
    pub closed spec fn wf(&self) -> bool {
        &&& self.next_frame % 4096 == 0
        &&& self.current_region <= self.memory_map@.len()
        &&& self.next_frame != 0 ==> {
            let region = self.memory_map@[self.current_region as int];
            &&& self.current_region < self.memory_map@.len()
            &&& is_usable(region.kind)
            &&& region.base + 4095 <= self.next_frame
        }
    }

    /// An allocator that starts at the first region of `memory_map`.
    pub fn new(memory_map: &'a [MemoryRegion]) -> (r: Self)
        ensures
            r.wf(),
            r.regions() == memory_map@,
            r.current() == 0,
            r.next() == 0,
    {
        Self { memory_map, current_region: 0, next_frame: 0 }
    }

    /// Total length of the usable regions.
    pub fn usable_memory(&self) -> (r: u64)
        requires
            length_of(self.regions(), self.regions().len() as int, |k: u64| is_usable(k))
                <= u64::MAX,
        ensures
            r == length_of(self.regions(), self.regions().len() as int, |k: u64| is_usable(k)),
    {
        let mut total: u64 = 0;
        let mut i: usize = 0;
        while i < self.memory_map.len()
            invariant
                i <= self.memory_map@.len(),
                total == length_of(self.memory_map@, i as int, |k: u64| is_usable(k)),
                length_of(self.memory_map@, self.memory_map@.len() as int, |k: u64| is_usable(k))
                    <= u64::MAX,
            decreases self.memory_map.len() - i,
        {
            proof {
                lemma_length_of_monotonic(
                    self.memory_map@,
                    i + 1,
                    self.memory_map@.len() as int,
                );
            }
            let region = self.memory_map[i];
            if region.kind == MEMMAP_USABLE {
                total = total + region.length;
            }
            i = i + 1;
        }
        total
    }

    /// Move to the next usable region, from the current one on; `None` when
    /// no region is left.
    fn next_usable_region(&mut self) -> (r: Option<MemoryRegion>)
        requires
            old(self).wf(),
        ensures
            final(self).wf(),
            final(self).regions() == old(self).regions(),
            old(self).current() <= final(self).current(),
            forall|k: int|
                old(self).current() <= k < final(self).current() ==> !is_usable(
                    #[trigger] old(self).regions()[k].kind,
                ),
            final(self).next() == if final(self).current() == old(self).current() {
                old(self).next()
            } else {
                0
            },
            match r {
                Some(region) => final(self).current() < final(self).regions().len() && region
                    == final(self).regions()[final(self).current()] && is_usable(region.kind),
                None => final(self).current() == final(self).regions().len(),
            },
    {
        while self.current_region < self.memory_map.len()
            invariant
                self.wf(),
                self.memory_map@ == old(self).memory_map@,
                old(self).current_region <= self.current_region,
                forall|k: int|
                    old(self).current() <= k < self.current_region ==> !is_usable(
                        #[trigger] old(self).memory_map@[k].kind,
                    ),
                self.next_frame == if self.current_region == old(self).current_region {
                    old(self).next_frame
                } else {
                    0
                },
            decreases self.memory_map.len() - self.current_region,
        {
            let region = self.memory_map[self.current_region];
            if region.kind == MEMMAP_USABLE {
                return Some(region);
            }
            self.current_region = self.current_region + 1;
            self.next_frame = 0;
        }
        None
    }

    /// Hand out the next frame of usable memory, exactly as
    /// [`spec_allocate_frame`] has it; `None` once the memory map is used
    /// up, or at a usable region whose end overflows.
    pub fn allocate_frame(&mut self) -> (r: Option<PhysFrame>)
        requires
            old(self).wf(),
            bases_round_up(old(self).regions()),
        ensures
            final(self).wf(),
            final(self).regions() == old(self).regions(),
            ({
                let (frame, current, next) = spec_allocate_frame(
                    old(self).regions(),
                    old(self).current(),
                    old(self).next(),
                );
                &&& final(self).current() == current
                &&& final(self).next() == next
                &&& match r {
                    Some(f) => frame == Some(f.start()),
                    None => frame is None,
                }
            }),
            // Every frame handed out is a whole frame of usable memory.
            r matches Some(f) ==> f.aligned() && exists|k: int|
                0 <= k < old(self).regions().len() && is_usable(
                    #[trigger] old(self).regions()[k].kind,
                ) && old(self).regions()[k].base <= f.start() && f.start() + 4096
                    <= old(self).regions()[k].base + old(self).regions()[k].length,
    {
        let ghost map = self.memory_map@;
        loop
            invariant
                self.wf(),
                self.memory_map@ == map,
                map == old(self).memory_map@,
                bases_round_up(map),
                spec_allocate_frame(map, self.current(), self.next()) == spec_allocate_frame(
                    map,
                    old(self).current(),
                    old(self).next(),
                ),
            decreases map.len() - self.current_region,
        {
            let ghost before = (self.current(), self.next());
            let found = self.next_usable_region();
            proof {
                lemma_skip_unusable(map, before.0, before.1, self.current());
            }
            let region = match found {
                Some(region) => region,
                None => return None,
            };
            let region_count = self.memory_map.len();
            let region_start = (region.base + (FRAME_SIZE - 1)) / FRAME_SIZE * FRAME_SIZE;
            let region_end = match region.base.checked_add(region.length) {
                Some(end) => end / FRAME_SIZE * FRAME_SIZE,
                None => return None,
            };
            if self.next_frame == 0 {
                self.next_frame = region_start;
            }
            if self.next_frame < region_end {
                let frame = PhysFrame::containing_address(PhysAddr::new(self.next_frame));
                self.next_frame = self.next_frame + FRAME_SIZE;
                assert(is_usable(map[self.current()].kind));
                return Some(frame);
            }
            assert(self.current_region < region_count);
            self.current_region = self.current_region + 1;
            self.next_frame = 0;
        }
    }
}

/// Skipping regions that are not usable does not change what the next
/// allocation gives.
proof fn lemma_skip_unusable(map: Seq<MemoryRegion>, from: int, next: u64, to: int)
    requires
        0 <= from <= to <= map.len(),
        forall|k: int| from <= k < to ==> !is_usable(#[trigger] map[k].kind),
    ensures
        spec_allocate_frame(map, from, next) == spec_allocate_frame(
            map,
            to,
            if to == from {
                next
            } else {
                0
            },
        ),
    decreases to - from,
{
    if from < to {
        assert(!is_usable(map[from].kind));
        lemma_skip_unusable(map, from + 1, 0, to);
    }
}

/// The usable length of a prefix never exceeds that of a longer prefix.
proof fn lemma_length_of_monotonic(map: Seq<MemoryRegion>, n: int, m: int)
    requires
        0 <= n <= m <= map.len(),
    ensures
        length_of(map, n, |k: u64| is_usable(k)) <= length_of(map, m, |k: u64| is_usable(k)),
    decreases m - n,
{
    if n < m {
        lemma_length_of_monotonic(map, n, m - 1);
    }
}

} // verus!
