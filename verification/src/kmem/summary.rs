//! A summary of the bootloader's memory map, by region type.

use vstd::prelude::*;
use crate::memory::frame_alloc::{
    MemoryRegion, FRAME_SIZE, MEMMAP_USABLE, MEMMAP_RESERVED, MEMMAP_ACPI_RECLAIMABLE,
    MEMMAP_BAD_MEMORY, MEMMAP_BOOTLOADER_RECLAIMABLE, MEMMAP_EXECUTABLE_AND_MODULES,
    MEMMAP_FRAMEBUFFER,
};

verus! {

/// `x` saturated to the range of a `u64`.
pub open spec fn capped(x: int) -> u64 {
    if x > u64::MAX {
        u64::MAX
    } else {
        x as u64
    }
}

/// Whether a region type is one the summary lists on its own line.
pub open spec fn listed_kind(kind: u64) -> bool {
    kind == MEMMAP_USABLE || kind == MEMMAP_RESERVED || kind == MEMMAP_ACPI_RECLAIMABLE || kind
        == MEMMAP_BOOTLOADER_RECLAIMABLE || kind == MEMMAP_EXECUTABLE_AND_MODULES || kind
        == MEMMAP_BAD_MEMORY || kind == MEMMAP_FRAMEBUFFER
}

/// Total length of the first `n` regions of `map` that satisfy `pick`.
pub open spec fn length_of(map: Seq<MemoryRegion>, n: int, pick: spec_fn(u64) -> bool) -> int
    decreases n,
{
    if n <= 0 {
        0
    } else {
        length_of(map, n - 1, pick) + if pick(map[n - 1].kind) {
            map[n - 1].length as int
        } else {
            0
        }
    }
}

/// Number of usable regions among the first `n` regions of `map`.
pub open spec fn usable_count(map: Seq<MemoryRegion>, n: int) -> int
    decreases n,
{
    if n <= 0 {
        0
    } else {
        usable_count(map, n - 1) + if map[n - 1].kind == MEMMAP_USABLE {
            1int
        } else {
            0
        }
    }
}

/// Base of the first usable region among the first `n` regions of `map`.
pub open spec fn first_usable_base(map: Seq<MemoryRegion>, n: int) -> Option<u64>
    decreases n,
{
    if n <= 0 {
        None
    } else {
        match first_usable_base(map, n - 1) {
            Some(b) => Some(b),
            None => if map[n - 1].kind == MEMMAP_USABLE {
                Some(map[n - 1].base)
            } else {
                None
            },
        }
    }
}

/// Largest end, saturated, of the usable regions among the first `n`
/// regions of `map`.
pub open spec fn last_usable_end(map: Seq<MemoryRegion>, n: int) -> Option<u64>
    decreases n,
{
    if n <= 0 {
        None
    } else {
        let before = last_usable_end(map, n - 1);
        if map[n - 1].kind == MEMMAP_USABLE {
            let end = capped(map[n - 1].base + map[n - 1].length);
            match before {
                Some(e) => Some(if e >= end { e } else { end }),
                None => Some(end),
            }
        } else {
            before
        }
    }
}

/// Memory totals by region type, as the kernel's memory analysis reports
/// them. Every total saturates at `u64::MAX`.
#[derive(Debug, Clone, Copy, PartialEq, Eq)]
pub struct MemorySummary {
    pub entries: usize,
    pub total: u64,
    pub usable: u64,
    pub reserved: u64,
    pub acpi_reclaimable: u64,
    pub bootloader_reclaimable: u64,
    pub kernel_and_modules: u64,
    pub bad: u64,
    pub framebuffer: u64,
    pub other: u64,
    pub usable_regions: usize,
    pub first_usable_base: Option<u64>,
    pub last_usable_end: Option<u64>,
    /// Number of whole frames the usable memory amounts to.
    pub frame_count: u64,
}

/// Saturating addition of a region's length to a running total.
proof fn lemma_summary_step(map: Seq<MemoryRegion>, n: int, pick: spec_fn(u64) -> bool, length: u64)
    ensures
        capped(length_of(map, n, pick) + length) == (if capped(length_of(map, n, pick)) + length
            > u64::MAX {
            u64::MAX as int
        } else {
            capped(length_of(map, n, pick)) + length
        }),
{
    lemma_length_nonneg(map, n, pick);
}

/// Summarize a memory map: the totals by region type, the number of usable
/// regions, the base of the first usable region and the highest end of a
/// usable region.
pub fn summarize_memory_map(entries: &[MemoryRegion]) -> (r: MemorySummary)
    ensures
        r.entries == entries@.len(),
        r.total == capped(length_of(entries@, entries@.len() as int, |k: u64| true)),
        r.usable == capped(length_of(entries@, entries@.len() as int, |k: u64| k == MEMMAP_USABLE)),
        r.reserved == capped(
            length_of(entries@, entries@.len() as int, |k: u64| k == MEMMAP_RESERVED),
        ),
        r.acpi_reclaimable == capped(
            length_of(entries@, entries@.len() as int, |k: u64| k == MEMMAP_ACPI_RECLAIMABLE),
        ),
        r.bootloader_reclaimable == capped(
            length_of(
                entries@,
                entries@.len() as int,
                |k: u64| k == MEMMAP_BOOTLOADER_RECLAIMABLE,
            ),
        ),
        r.kernel_and_modules == capped(
            length_of(
                entries@,
                entries@.len() as int,
                |k: u64| k == MEMMAP_EXECUTABLE_AND_MODULES,
            ),
        ),
        r.bad == capped(length_of(entries@, entries@.len() as int, |k: u64| k == MEMMAP_BAD_MEMORY)),
        r.framebuffer == capped(
            length_of(entries@, entries@.len() as int, |k: u64| k == MEMMAP_FRAMEBUFFER),
        ),
        r.other == capped(length_of(entries@, entries@.len() as int, |k: u64| !listed_kind(k))),
        r.usable_regions == usable_count(entries@, entries@.len() as int),
        r.first_usable_base == first_usable_base(entries@, entries@.len() as int),
        r.last_usable_end == last_usable_end(entries@, entries@.len() as int),
        r.frame_count == r.usable / FRAME_SIZE,
        r.total < u64::MAX ==> r.usable + r.reserved + r.acpi_reclaimable + r.bootloader_reclaimable
            + r.kernel_and_modules + r.bad + r.framebuffer + r.other == r.total,
{
    let ghost map = entries@;
    let ghost all = |k: u64| true;
    let ghost usable_kind = |k: u64| k == MEMMAP_USABLE;
    let ghost reserved_kind = |k: u64| k == MEMMAP_RESERVED;
    let ghost acpi_kind = |k: u64| k == MEMMAP_ACPI_RECLAIMABLE;
    let ghost boot_kind = |k: u64| k == MEMMAP_BOOTLOADER_RECLAIMABLE;
    let ghost kernel_kind = |k: u64| k == MEMMAP_EXECUTABLE_AND_MODULES;
    let ghost bad_kind = |k: u64| k == MEMMAP_BAD_MEMORY;
    let ghost fb_kind = |k: u64| k == MEMMAP_FRAMEBUFFER;
    let ghost other_kind = |k: u64| !listed_kind(k);
    let mut total_memory: u64 = 0;
    let mut usable_memory: u64 = 0;
    let mut reserved_memory: u64 = 0;
    let mut reclaimable_memory: u64 = 0;
    let mut bootloader_memory: u64 = 0;
    let mut kernel_and_modules: u64 = 0;
    let mut bad_memory: u64 = 0;
    let mut framebuffer_memory: u64 = 0;
    let mut other_memory: u64 = 0;
    let mut usable_regions: usize = 0;
    let mut first_usable: Option<u64> = None;
    let mut last_end: Option<u64> = None;
    let mut k: usize = 0;
    while k < entries.len()
        invariant
            map == entries@,
            k <= entries.len(),
            total_memory == capped(length_of(map, k as int, all)),
            usable_memory == capped(length_of(map, k as int, usable_kind)),
            reserved_memory == capped(length_of(map, k as int, reserved_kind)),
            reclaimable_memory == capped(length_of(map, k as int, acpi_kind)),
            bootloader_memory == capped(length_of(map, k as int, boot_kind)),
            kernel_and_modules == capped(length_of(map, k as int, kernel_kind)),
            bad_memory == capped(length_of(map, k as int, bad_kind)),
            framebuffer_memory == capped(length_of(map, k as int, fb_kind)),
            other_memory == capped(length_of(map, k as int, other_kind)),
            usable_regions == usable_count(map, k as int),
            usable_count(map, k as int) <= k,
            first_usable == first_usable_base(map, k as int),
            last_end == last_usable_end(map, k as int),
            all == (|k: u64| true),
            usable_kind == (|k: u64| k == MEMMAP_USABLE),
            reserved_kind == (|k: u64| k == MEMMAP_RESERVED),
            acpi_kind == (|k: u64| k == MEMMAP_ACPI_RECLAIMABLE),
            boot_kind == (|k: u64| k == MEMMAP_BOOTLOADER_RECLAIMABLE),
            kernel_kind == (|k: u64| k == MEMMAP_EXECUTABLE_AND_MODULES),
            bad_kind == (|k: u64| k == MEMMAP_BAD_MEMORY),
            fb_kind == (|k: u64| k == MEMMAP_FRAMEBUFFER),
            other_kind == (|k: u64| !listed_kind(k)),
        decreases entries.len() - k,
    {
        let entry = entries[k];
        let base = entry.base;
        let length = entry.length;
        let end = base.saturating_add(length);
        proof {
            lemma_summary_step(map, k as int, all, length);
            lemma_summary_step(map, k as int, usable_kind, length);
            lemma_summary_step(map, k as int, reserved_kind, length);
            lemma_summary_step(map, k as int, acpi_kind, length);
            lemma_summary_step(map, k as int, boot_kind, length);
            lemma_summary_step(map, k as int, kernel_kind, length);
            lemma_summary_step(map, k as int, bad_kind, length);
            lemma_summary_step(map, k as int, fb_kind, length);
            lemma_summary_step(map, k as int, other_kind, length);
        }
        total_memory = total_memory.saturating_add(length);
        if entry.kind == MEMMAP_USABLE {
            usable_memory = usable_memory.saturating_add(length);
            usable_regions = usable_regions + 1;
            if first_usable.is_none() {
                first_usable = Some(base);
            }
            let previous = match last_end {
                Some(e) => e,
                None => 0,
            };
            last_end = Some(if previous >= end { previous } else { end });
        } else if entry.kind == MEMMAP_RESERVED {
            reserved_memory = reserved_memory.saturating_add(length);
        } else if entry.kind == MEMMAP_ACPI_RECLAIMABLE {
            reclaimable_memory = reclaimable_memory.saturating_add(length);
        } else if entry.kind == MEMMAP_BOOTLOADER_RECLAIMABLE {
            bootloader_memory = bootloader_memory.saturating_add(length);
        } else if entry.kind == MEMMAP_EXECUTABLE_AND_MODULES {
            kernel_and_modules = kernel_and_modules.saturating_add(length);
        } else if entry.kind == MEMMAP_BAD_MEMORY {
            bad_memory = bad_memory.saturating_add(length);
        } else if entry.kind == MEMMAP_FRAMEBUFFER {
            framebuffer_memory = framebuffer_memory.saturating_add(length);
        } else {
            other_memory = other_memory.saturating_add(length);
        }
        k = k + 1;
    }
    proof {
        let n = map.len() as int;
        law_summary_totals_partition(map, n);
        lemma_length_nonneg(map, n, usable_kind);
        lemma_length_nonneg(map, n, reserved_kind);
        lemma_length_nonneg(map, n, acpi_kind);
        lemma_length_nonneg(map, n, boot_kind);
        lemma_length_nonneg(map, n, kernel_kind);
        lemma_length_nonneg(map, n, bad_kind);
        lemma_length_nonneg(map, n, fb_kind);
        lemma_length_nonneg(map, n, other_kind);
    }
    MemorySummary {
        entries: entries.len(),
        total: total_memory,
        usable: usable_memory,
        reserved: reserved_memory,
        acpi_reclaimable: reclaimable_memory,
        bootloader_reclaimable: bootloader_memory,
        kernel_and_modules,
        bad: bad_memory,
        framebuffer: framebuffer_memory,
        other: other_memory,
        usable_regions,
        first_usable_base: first_usable,
        last_usable_end: last_end,
        frame_count: usable_memory / FRAME_SIZE,
    }
}

/// Whether a region type is none of the seven that the summary lists on
/// their own lines.
pub open spec fn unnamed_kind(kind: u64) -> bool {
    &&& kind != MEMMAP_USABLE
    &&& kind != MEMMAP_RESERVED
    &&& kind != MEMMAP_ACPI_RECLAIMABLE
    &&& kind != MEMMAP_BOOTLOADER_RECLAIMABLE
    &&& kind != MEMMAP_EXECUTABLE_AND_MODULES
    &&& kind != MEMMAP_BAD_MEMORY
    &&& kind != MEMMAP_FRAMEBUFFER
}

/// Every region is counted in exactly one per-type total: the totals of
/// the seven named types and of the other regions, which are exactly those
/// of none of the seven types, add up to the total length of the map.
pub proof fn law_summary_totals_partition(map: Seq<MemoryRegion>, n: int)
    ensures
        length_of(map, n, |k: u64| !listed_kind(k)) == length_of(map, n, |k: u64| unnamed_kind(k)),
        length_of(map, n, |k: u64| k == MEMMAP_USABLE) + length_of(map, n, |k: u64| k == MEMMAP_RESERVED)
            + length_of(map, n, |k: u64| k == MEMMAP_ACPI_RECLAIMABLE) + length_of(
            map,
            n,
            |k: u64| k == MEMMAP_BOOTLOADER_RECLAIMABLE,
        ) + length_of(map, n, |k: u64| k == MEMMAP_EXECUTABLE_AND_MODULES) + length_of(
            map,
            n,
            |k: u64| k == MEMMAP_BAD_MEMORY,
        ) + length_of(map, n, |k: u64| k == MEMMAP_FRAMEBUFFER) + length_of(
            map,
            n,
            |k: u64| !listed_kind(k),
        ) == length_of(map, n, |k: u64| true),
    decreases n,
{
    if n > 0 {
        law_summary_totals_partition(map, n - 1);
    }
}

/// A total of lengths is never negative.
proof fn lemma_length_nonneg(map: Seq<MemoryRegion>, n: int, pick: spec_fn(u64) -> bool)
    ensures
        length_of(map, n, pick) >= 0,
    decreases n,
{
    if n > 0 {
        lemma_length_nonneg(map, n - 1, pick);
    }
}

} // verus!
