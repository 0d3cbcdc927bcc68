use sillos::acpi::{
    check_extended_rsdp, check_rsdp, checksum_valid, find_fadt, parse_fadt, read_u32, read_u64,
    reboot_action, reset_info, signature_to_str, xsdt_entries, xsdt_entry_count, AcpiError,
    RebootAction, ResetInfo, ResetRegister, RsdpCheck, RESET_REG_OFFSET, RESET_VALUE_OFFSET,
};

/// Set `bytes[at]` so that the first `length` bytes add up to zero.
fn fix_checksum(bytes: &mut [u8], length: usize, at: usize) {
    bytes[at] = 0;
    let sum = bytes[..length].iter().fold(0u8, |s, b| s.wrapping_add(*b));
    bytes[at] = 0u8.wrapping_sub(sum);
}

fn rsdp(revision: u8, length: u32, xsdt: u64) -> Vec<u8> {
    let mut bytes = vec![0u8; 36];
    bytes[..8].copy_from_slice(b"RSD PTR ");
    bytes[15] = revision;
    bytes[20..24].copy_from_slice(&length.to_le_bytes());
    bytes[24..32].copy_from_slice(&xsdt.to_le_bytes());
    fix_checksum(&mut bytes, 20, 8);
    fix_checksum(&mut bytes, 36, 32);
    bytes
}

#[test]
fn checksum_counts_the_given_length() {
    assert!(checksum_valid(&[1, 2, 253], 3));
    assert!(!checksum_valid(&[1, 2, 252], 3));
    assert!(checksum_valid(&[1, 255, 7], 2));
}

#[test]
fn little_endian_reads() {
    let bytes = [0x78, 0x56, 0x34, 0x12, 0xef, 0xcd, 0xab, 0x90, 0x01];
    assert_eq!(read_u32(&bytes, 0), 0x1234_5678);
    assert_eq!(read_u64(&bytes, 0), 0x90ab_cdef_1234_5678);
}

#[test]
fn rsdp_versions_and_errors() {
    assert_eq!(check_rsdp(&rsdp(0, 0, 0)), RsdpCheck::Version1 { revision: 0 });
    assert_eq!(check_rsdp(&rsdp(2, 36, 0x1000)), RsdpCheck::Extended { revision: 2, length: 36 });
    let mut bad = rsdp(2, 36, 0x1000);
    bad[9] ^= 1;
    assert_eq!(check_rsdp(&bad), RsdpCheck::ChecksumInvalid);
    let mut unsigned = rsdp(2, 36, 0x1000);
    unsigned[0] = b'X';
    assert_eq!(check_rsdp(&unsigned), RsdpCheck::InvalidSignature);
}

#[test]
fn extended_rsdp_gives_xsdt_address() {
    let bytes = rsdp(2, 36, 0xdead_b000);
    assert_eq!(check_extended_rsdp(&bytes, 36), Ok(0xdead_b000));
    let mut bad = bytes.clone();
    bad[33] ^= 0xff;
    assert_eq!(check_extended_rsdp(&bad, 36), Err(AcpiError::ExtendedChecksumInvalid));
}

#[test]
fn xsdt_header_and_entries() {
    let mut table = vec![0u8; 36 + 16];
    table[..4].copy_from_slice(b"XSDT");
    table[4..8].copy_from_slice(&52u32.to_le_bytes());
    table[36..44].copy_from_slice(&0x1000u64.to_le_bytes());
    table[44..52].copy_from_slice(&0x2000u64.to_le_bytes());
    assert_eq!(xsdt_entry_count(&table), Ok(2));
    assert_eq!(xsdt_entries(&table, 2), vec![0x1000, 0x2000]);
    let mut short = table.clone();
    short[4..8].copy_from_slice(&20u32.to_le_bytes());
    assert_eq!(xsdt_entry_count(&short), Err(AcpiError::InvalidXsdtLength));
    let mut unsigned = table.clone();
    unsigned[0] = b'R';
    assert_eq!(xsdt_entry_count(&unsigned), Err(AcpiError::InvalidXsdtSignature));
}

#[test]
fn fadt_is_first_non_null_facp() {
    let entries = [0x1000, 0, 0x3000, 0x4000];
    let signatures = [*b"APIC", *b"FACP", *b"FACP", *b"FACP"];
    assert_eq!(find_fadt(&entries, &signatures), Some(2));
    assert_eq!(find_fadt(&entries[..2], &signatures[..2]), None);
}

fn fadt(address_space: u8, address: u64, value: u8) -> Vec<u8> {
    let mut table = vec![0u8; 0x80];
    table[..4].copy_from_slice(b"FACP");
    table[4..8].copy_from_slice(&0x80u32.to_le_bytes());
    table[RESET_REG_OFFSET] = address_space;
    table[RESET_REG_OFFSET + 1] = 8;
    table[RESET_REG_OFFSET + 4..RESET_REG_OFFSET + 12].copy_from_slice(&address.to_le_bytes());
    table[RESET_VALUE_OFFSET] = value;
    fix_checksum(&mut table, 0x80, 9);
    table
}

#[test]
fn fadt_reset_register_is_read() {
    let reg = parse_fadt(&fadt(1, 0xcf9, 6)).unwrap();
    assert_eq!(
        reg,
        ResetRegister {
            address_space: 1,
            bit_width: 8,
            bit_offset: 0,
            access_size: 0,
            address: 0xcf9,
            value: 6,
        }
    );
    let mut bad = fadt(1, 0xcf9, 6);
    bad[20] ^= 1;
    assert_eq!(parse_fadt(&bad), Err(AcpiError::FadtChecksumInvalid));
    let mut short = vec![0u8; 16];
    short[4..8].copy_from_slice(&16u32.to_le_bytes());
    fix_checksum(&mut short, 16, 9);
    assert_eq!(parse_fadt(&short), Err(AcpiError::FadtTooShort));
}

#[test]
fn reboot_decisions() {
    let io = reset_info(parse_fadt(&fadt(1, 0xcf9, 6)).unwrap());
    assert_eq!(io, Some(ResetInfo { address_space: 1, address: 0xcf9, value: 6 }));
    assert_eq!(reboot_action(io), RebootAction::WritePort { port: 0xcf9, value: 6 });
    assert_eq!(reset_info(parse_fadt(&fadt(1, 0, 6)).unwrap()), None);
    assert_eq!(reboot_action(None), RebootAction::NoResetMechanism);
    let memory = reset_info(parse_fadt(&fadt(0, 0xfee0_0000, 1)).unwrap());
    assert_eq!(reboot_action(memory), RebootAction::UnsupportedAddressSpace(0));
    let far = reset_info(parse_fadt(&fadt(1, 0x1_0000, 1)).unwrap());
    assert_eq!(reboot_action(far), RebootAction::InvalidPort);
}

#[test]
fn known_signatures_are_named() {
    assert_eq!(signature_to_str(*b"FACP"), "FACP");
    assert_eq!(signature_to_str(*b"SSDT"), "SSDT");
    assert_eq!(signature_to_str(*b"ABCD"), "????");
}
