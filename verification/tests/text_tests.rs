use sillos::fs::path::{last_segment, parent_of, path_before};
use sillos::kmem::summary::summarize_memory_map;
use sillos::memory::frame_alloc::{
    MemoryRegion, MEMMAP_ACPI_RECLAIMABLE, MEMMAP_FRAMEBUFFER, MEMMAP_RESERVED, MEMMAP_USABLE,
};
use sillos::test::{QemuExitCode, TestResult, TestTally};
use sillos::text::{
    is_power_of_two, is_whitespace, parse_hex_address, parse_usize, split_whitespace, str_eq,
};

#[test]
fn parse_decimal_and_hex() {
    assert_eq!(parse_usize("42", 10), Some(42));
    assert_eq!(parse_usize("+7", 10), Some(7));
    assert_eq!(parse_usize("", 10), None);
    assert_eq!(parse_usize("+", 10), None);
    assert_eq!(parse_usize("-1", 10), None);
    assert_eq!(parse_usize("1a", 10), None);
    assert_eq!(parse_usize("ff", 16), Some(255));
    assert_eq!(parse_usize("FF", 16), Some(255));
    assert_eq!(parse_usize(&format!("{}0", usize::MAX), 10), None);
}

#[test]
fn hex_addresses_take_a_prefix() {
    assert_eq!(parse_hex_address("0x1F"), Some(31));
    assert_eq!(parse_hex_address("0X10"), Some(16));
    assert_eq!(parse_hex_address("beef"), Some(0xbeef));
    assert_eq!(parse_hex_address("0xg"), None);
}

#[test]
fn words_and_whitespace() {
    assert_eq!(split_whitespace(" a\tbc  d\n"), vec!["a", "bc", "d"]);
    assert!(split_whitespace("   ").is_empty());
    assert!(is_whitespace('\u{3000}'));
    assert!(!is_whitespace('x'));
    assert!(str_eq("abc", "abc"));
    assert!(!str_eq("abc", "abd"));
}

#[test]
fn powers_of_two() {
    assert!(is_power_of_two(1));
    assert!(is_power_of_two(4096));
    assert!(!is_power_of_two(0));
    assert!(!is_power_of_two(12));
}

#[test]
fn paths_split_into_parent_and_name() {
    assert_eq!(parent_of("/a/b/c"), "/a/b");
    assert_eq!(parent_of("/a"), "/");
    assert_eq!(last_segment("/a/b/c"), "c");
    assert!(path_before("/a", "/b"));
    assert!(!path_before("/b", "/a"));
}

#[test]
fn memory_map_summary_by_type() {
    let map = [
        MemoryRegion { base: 0, length: 0x1000, kind: MEMMAP_RESERVED },
        MemoryRegion { base: 0x1000, length: 0x9f000, kind: MEMMAP_USABLE },
        MemoryRegion { base: 0x10_0000, length: 0x10_0000, kind: MEMMAP_USABLE },
        MemoryRegion { base: 0x20_0000, length: 0x2000, kind: MEMMAP_ACPI_RECLAIMABLE },
        MemoryRegion { base: 0xfd00_0000, length: 0x30_0000, kind: MEMMAP_FRAMEBUFFER },
        MemoryRegion { base: 0xfe00_0000, length: 0x1000, kind: 99 },
    ];
    let s = summarize_memory_map(&map);
    assert_eq!(s.entries, 6);
    assert_eq!(s.usable, 0x19f000);
    assert_eq!(s.reserved, 0x1000);
    assert_eq!(s.acpi_reclaimable, 0x2000);
    assert_eq!(s.framebuffer, 0x30_0000);
    assert_eq!(s.other, 0x1000);
    assert_eq!(s.total, 0x1000 + 0x19f000 + 0x2000 + 0x30_0000 + 0x1000);
    assert_eq!(s.usable_regions, 2);
    assert_eq!(s.first_usable_base, Some(0x1000));
    assert_eq!(s.last_usable_end, Some(0x20_0000));
    assert_eq!(s.frame_count, 0x19f);
}

#[test]
fn memory_map_summary_saturates() {
    let map = [
        MemoryRegion { base: 0, length: u64::MAX, kind: MEMMAP_USABLE },
        MemoryRegion { base: 0, length: 10, kind: MEMMAP_USABLE },
    ];
    let s = summarize_memory_map(&map);
    assert_eq!(s.usable, u64::MAX);
    assert_eq!(s.total, u64::MAX);
}

#[test]
fn test_tally_exit_code() {
    let mut tally = TestTally::new();
    tally.record(&TestResult::Pass);
    assert_eq!(tally.exit_code().code(), QemuExitCode::Success.code());
    tally.record(&TestResult::Fail("broken"));
    assert_eq!((tally.total, tally.passed, tally.failed), (2, 1, 1));
    assert_eq!(tally.exit_code().code(), 0x11);
}
