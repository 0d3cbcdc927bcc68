//! ACPI: validating the RSDP, walking the XSDT, reading the FADT's reset
//! register and deciding how to reboot.
//!
//! The tables are handed over as the bytes they occupy in memory; all
//! multi-byte fields are little-endian.

use vstd::prelude::*;

verus! {

/// Size of the version 1 RSDP, the part covered by its first checksum.
pub const RSDP_V1_SIZE: usize = 20;

/// Size of the header that starts every system description table.
pub const SDT_HEADER_SIZE: usize = 36;

/// Offset of the reset register (a generic address structure) in the FADT.
pub const RESET_REG_OFFSET: usize = 0x70;

/// Offset of the value to write to the reset register in the FADT.
pub const RESET_VALUE_OFFSET: usize = 0x7C;

/// Generic-address-structure address space of system I/O ports.
pub const ADDRESS_SPACE_SYSTEM_IO: u8 = 1;

/// Sum of the bytes `bytes[..n]`.
pub open spec fn byte_sum(bytes: Seq<u8>, n: int) -> int
    decreases n,
{
    if n <= 0 {
        0
    } else {
        byte_sum(bytes, n - 1) + bytes[n - 1]
    }
}

/// Whether the bytes `bytes[..n]` add up to zero modulo 256, as every ACPI
/// checksum requires.
pub open spec fn spec_checksum_valid(bytes: Seq<u8>, n: int) -> bool {
    byte_sum(bytes, n) % 256 == 0
}

/// The little-endian `u32` at `off`.
pub open spec fn le_u32(bytes: Seq<u8>, off: int) -> int {
    bytes[off] + bytes[off + 1] * 0x100 + bytes[off + 2] * 0x1_0000 + bytes[off + 3] * 0x100_0000
}

/// The little-endian `u64` at `off`.
pub open spec fn le_u64(bytes: Seq<u8>, off: int) -> int {
    le_u32(bytes, off) + le_u32(bytes, off + 4) * 0x1_0000_0000
}

/// Whether the four bytes at `off` spell `name`.
pub open spec fn has_signature(bytes: Seq<u8>, off: int, name: Seq<u8>) -> bool {
    bytes.subrange(off, off + 4) == name
}

/// "RSD PTR " in ASCII.
pub open spec fn rsdp_signature() -> Seq<u8> {
    seq![0x52u8, 0x53, 0x44, 0x20, 0x50, 0x54, 0x52, 0x20]
}

/// "XSDT" in ASCII.
pub open spec fn xsdt_signature() -> Seq<u8> {
    seq![0x58u8, 0x53, 0x44, 0x54]
}

/// "FACP", the signature of the FADT, in ASCII.
pub open spec fn fadt_signature() -> Seq<u8> {
    seq![0x46u8, 0x41, 0x43, 0x50]
}

/// Whether the bytes `bytes[..n]` add up to zero modulo 256.
pub fn checksum_valid(bytes: &[u8], length: usize) -> (r: bool)
    requires
        length <= bytes@.len(),
    ensures
        r == spec_checksum_valid(bytes@, length as int),
{
    let mut sum: u8 = 0;
    let mut i: usize = 0;
    while i < length
        invariant
            i <= length <= bytes@.len(),
            sum == byte_sum(bytes@, i as int) % 256,
        decreases length - i,
    {
        proof {
            lemma_byte_sum_nonneg(bytes@, i as int);
        }
        sum = sum.wrapping_add(bytes[i]);
        i = i + 1;
    }
    sum == 0
}

/// A sum of bytes is never negative.
proof fn lemma_byte_sum_nonneg(bytes: Seq<u8>, n: int)
    ensures
        byte_sum(bytes, n) >= 0,
    decreases n,
{
    if n > 0 {
        lemma_byte_sum_nonneg(bytes, n - 1);
    }
}

/// Read the little-endian `u32` at `off`.
pub fn read_u32(bytes: &[u8], off: usize) -> (r: u32)
    requires
        off + 4 <= bytes@.len(),
    ensures
        r == le_u32(bytes@, off as int),
{
    bytes[off] as u32 + bytes[off + 1] as u32 * 0x100 + bytes[off + 2] as u32 * 0x1_0000
        + bytes[off + 3] as u32 * 0x100_0000
}

/// Read the little-endian `u64` at `off`.
pub fn read_u64(bytes: &[u8], off: usize) -> (r: u64)
    requires
        off + 8 <= bytes@.len(),
    ensures
        r == le_u64(bytes@, off as int),
{
    let _length = bytes.len();
    read_u32(bytes, off) as u64 + read_u32(bytes, off + 4) as u64 * 0x1_0000_0000
}

/// Whether the four bytes at `off` are `a b c d`.
fn signature_is(bytes: &[u8], off: usize, a: u8, b: u8, c: u8, d: u8) -> (r: bool)
    requires
        off + 4 <= bytes@.len(),
    ensures
        r == has_signature(bytes@, off as int, seq![a, b, c, d]),
{
    let r = bytes[off] == a && bytes[off + 1] == b && bytes[off + 2] == c && bytes[off + 3] == d;
    proof {
        let s = bytes@.subrange(off as int, off + 4);
        if r {
            assert(s =~= seq![a, b, c, d]);
        } else {
            if s == seq![a, b, c, d] {
                assert(s[0] == a && s[1] == b && s[2] == c && s[3] == d);
            }
        }
    }
    r
}

/// What the RSDP says, once its first 20 bytes have been read.
#[derive(Debug, Clone, Copy, PartialEq, Eq, Structural)]
pub enum RsdpCheck {
    /// The signature is not "RSD PTR ".
    InvalidSignature,
    /// The first 20 bytes do not add up to zero.
    ChecksumInvalid,
    /// An ACPI 1.0 RSDP, which points to an RSDT.
    Version1 { revision: u8 },
    /// An ACPI 2.0+ RSDP of `length` bytes, which must be checked whole.
    Extended { revision: u8, length: u32 },
}

/// The outcome of checking the first bytes of an RSDP.
pub open spec fn spec_check_rsdp(bytes: Seq<u8>) -> RsdpCheck {
    if bytes.subrange(0, 8) != rsdp_signature() {
        RsdpCheck::InvalidSignature
    } else if !spec_checksum_valid(bytes, RSDP_V1_SIZE as int) {
        RsdpCheck::ChecksumInvalid
    } else if bytes[15] >= 2 {
        RsdpCheck::Extended { revision: bytes[15], length: le_u32(bytes, 20) as u32 }
    } else {
        RsdpCheck::Version1 { revision: bytes[15] }
    }
}

/// Check the signature and the first checksum of an RSDP, given at least
/// its first 24 bytes (the version 1 part and the length field that
/// follows it).
pub fn check_rsdp(bytes: &[u8]) -> (r: RsdpCheck)
    requires
        bytes@.len() >= 24,
    ensures
        r == spec_check_rsdp(bytes@),
{
    let low_ok = signature_is(bytes, 0, 0x52, 0x53, 0x44, 0x20);
    let high_ok = signature_is(bytes, 4, 0x50, 0x54, 0x52, 0x20);
    let signature_ok = low_ok && high_ok;
    proof {
        let s = bytes@.subrange(0, 8);
        let lo = bytes@.subrange(0, 4);
        let hi = bytes@.subrange(4, 8);
        assert(s =~= lo + hi);
        if s == rsdp_signature() {
            assert(lo =~= seq![0x52u8, 0x53, 0x44, 0x20]);
            assert(hi =~= seq![0x50u8, 0x54, 0x52, 0x20]);
        }
        if signature_ok {
            assert(s =~= rsdp_signature());
        }
    }
    if !signature_ok {
        return RsdpCheck::InvalidSignature;
    }
    if !checksum_valid(bytes, RSDP_V1_SIZE) {
        return RsdpCheck::ChecksumInvalid;
    }
    let revision = bytes[15];
    if revision >= 2 {
        RsdpCheck::Extended { revision, length: read_u32(bytes, 20) }
    } else {
        RsdpCheck::Version1 { revision }
    }
}

/// Errors found while reading the ACPI tables.
#[derive(Debug, Clone, Copy, PartialEq, Eq, Structural)]
pub enum AcpiError {
    ExtendedChecksumInvalid,
    InvalidXsdtSignature,
    InvalidXsdtLength,
    FadtChecksumInvalid,
    FadtTooShort,
}

/// Check the whole extended RSDP, whose `length` bytes are given, and
/// return the address of the XSDT.
pub fn check_extended_rsdp(bytes: &[u8], length: usize) -> (r: Result<u64, AcpiError>)
    requires
        length <= bytes@.len(),
        bytes@.len() >= 32,
    ensures
        r == if spec_checksum_valid(bytes@, length as int) {
            Ok::<u64, AcpiError>(le_u64(bytes@, 24) as u64)
        } else {
            Err::<u64, AcpiError>(AcpiError::ExtendedChecksumInvalid)
        },
{
    if !checksum_valid(bytes, length) {
        return Err(AcpiError::ExtendedChecksumInvalid);
    }
    Ok(read_u64(bytes, 24))
}

/// The number of 64-bit table addresses an XSDT with header `header`
/// holds.
pub open spec fn spec_xsdt_entry_count(header: Seq<u8>) -> Result<usize, AcpiError> {
    if !has_signature(header, 0, xsdt_signature()) {
        Err(AcpiError::InvalidXsdtSignature)
    } else if le_u32(header, 4) < SDT_HEADER_SIZE {
        Err(AcpiError::InvalidXsdtLength)
    } else {
        Ok(((le_u32(header, 4) - SDT_HEADER_SIZE) / 8) as usize)
    }
}

/// Check the XSDT's header and count its entries.
pub fn xsdt_entry_count(header: &[u8]) -> (r: Result<usize, AcpiError>)
    requires
        header@.len() >= SDT_HEADER_SIZE,
    ensures
        r == spec_xsdt_entry_count(header@),
{
    if !signature_is(header, 0, 0x58, 0x53, 0x44, 0x54) {
        return Err(AcpiError::InvalidXsdtSignature);
    }
    let length = read_u32(header, 4) as usize;
    if length < SDT_HEADER_SIZE {
        return Err(AcpiError::InvalidXsdtLength);
    }
    Ok((length - SDT_HEADER_SIZE) / 8)
}

/// The table addresses of an XSDT whose first `SDT_HEADER_SIZE + 8 * count`
/// bytes are given.
pub fn xsdt_entries(table: &[u8], count: usize) -> (r: Vec<u64>)
    requires
        SDT_HEADER_SIZE + 8 * count <= table@.len(),
    ensures
        r@.len() == count,
        forall|i: int| 0 <= i < count ==> #[trigger] r@[i] == le_u64(table@, SDT_HEADER_SIZE + 8 * i),
{
    let mut entries: Vec<u64> = Vec::new();
    let length = table.len();
    let mut i: usize = 0;
    while i < count
        invariant
            i <= count,
            length == table@.len(),
            SDT_HEADER_SIZE + 8 * count <= table@.len(),
            entries@.len() == i,
            forall|j: int|
                0 <= j < i ==> #[trigger] entries@[j] == le_u64(table@, SDT_HEADER_SIZE + 8 * j),
        decreases count - i,
    {
        entries.push(read_u64(table, SDT_HEADER_SIZE + 8 * i));
        i = i + 1;
    }
    entries
}

/// Whether entry `i` is the first non-null entry whose table carries the
/// FADT's signature.
pub open spec fn is_first_fadt(entries: Seq<u64>, signatures: Seq<[u8; 4]>, i: int) -> bool {
    &&& 0 <= i < entries.len()
    &&& entries[i] != 0
    &&& signatures[i]@ == fadt_signature()
    &&& forall|j: int|
        0 <= j < i ==> entries[j] == 0 || #[trigger] signatures[j]@ != fadt_signature()
}

/// The position of the FADT among the XSDT's entries: the first non-null
/// entry whose table's signature is "FACP". `signatures[i]` is the
/// signature of the table that entry `i` points to; it is not looked at
/// for a null entry.
pub fn find_fadt(entries: &[u64], signatures: &[[u8; 4]]) -> (r: Option<usize>)
    requires
        signatures@.len() == entries@.len(),
    ensures
        match r {
            Some(i) => is_first_fadt(entries@, signatures@, i as int),
            None => forall|j: int|
                0 <= j < entries@.len() ==> entries@[j] == 0 || #[trigger] signatures@[j]@
                    != fadt_signature(),
        },
{
    let mut i: usize = 0;
    while i < entries.len()
        invariant
            i <= entries@.len(),
            signatures@.len() == entries@.len(),
            forall|j: int|
                0 <= j < i ==> entries@[j] == 0 || #[trigger] signatures@[j]@ != fadt_signature(),
        decreases entries.len() - i,
    {
        if entries[i] != 0 {
            let signature = signatures[i];
            let is_fadt = signature[0] == 0x46 && signature[1] == 0x41 && signature[2] == 0x43
                && signature[3] == 0x50;
            proof {
                if is_fadt {
                    assert(signature@ =~= fadt_signature());
                } else if signature@ == fadt_signature() {
                    assert(signature@[0] == 0x46 && signature@[1] == 0x41);
                }
            }
            if is_fadt {
                return Some(i);
            }
        }
        i = i + 1;
    }
    None
}

/// The FADT's reset register (a generic address structure) and the value
/// to write to it.
#[derive(Debug, Clone, Copy, PartialEq, Eq, Structural)]
pub struct ResetRegister {
    pub address_space: u8,
    pub bit_width: u8,
    pub bit_offset: u8,
    pub access_size: u8,
    pub address: u64,
    pub value: u8,
}

/// The outcome of reading the reset register from an FADT of `length`
/// bytes.
pub open spec fn spec_parse_fadt(table: Seq<u8>, length: int) -> Result<ResetRegister, AcpiError> {
    if !spec_checksum_valid(table, length) {
        Err(AcpiError::FadtChecksumInvalid)
    } else if length < RESET_VALUE_OFFSET + 1 {
        Err(AcpiError::FadtTooShort)
    } else {
        Ok(
            ResetRegister {
                address_space: table[RESET_REG_OFFSET as int],
                bit_width: table[RESET_REG_OFFSET + 1],
                bit_offset: table[RESET_REG_OFFSET + 2],
                access_size: table[RESET_REG_OFFSET + 3],
                address: le_u64(table, RESET_REG_OFFSET + 4) as u64,
                value: table[RESET_VALUE_OFFSET as int],
            },
        )
    }
}

/// Read the reset register from an FADT, given its bytes; its length is
/// the one its header states. The FADT is read field by field at the
/// offsets ACPI defines.
pub fn parse_fadt(table: &[u8]) -> (r: Result<ResetRegister, AcpiError>)
    requires
        table@.len() >= 8,
        le_u32(table@, 4) <= table@.len(),
    ensures
        r == spec_parse_fadt(table@, le_u32(table@, 4)),
{
    let length = read_u32(table, 4) as usize;
    if !checksum_valid(table, length) {
        return Err(AcpiError::FadtChecksumInvalid);
    }
    if length < RESET_VALUE_OFFSET + 1 {
        return Err(AcpiError::FadtTooShort);
    }
    let address_space = table[RESET_REG_OFFSET];
    let bit_width = table[RESET_REG_OFFSET + 1];
    let bit_offset = table[RESET_REG_OFFSET + 2];
    let access_size = table[RESET_REG_OFFSET + 3];
    let address = read_u64(table, RESET_REG_OFFSET + 4);
    let value = table[RESET_VALUE_OFFSET];
    Ok(ResetRegister { address_space, bit_width, bit_offset, access_size, address, value })
}

/// How to reset the machine through the FADT's reset register.
#[derive(Debug, Clone, Copy, PartialEq, Eq, Structural)]
pub struct ResetInfo {
    pub address_space: u8,
    pub address: u64,
    pub value: u8,
}

/// The reset mechanism a reset register describes; `None` when its address
/// is zero, which means the register is unavailable.
pub fn reset_info(reg: ResetRegister) -> (r: Option<ResetInfo>)
    ensures
        r == if reg.address == 0 {
            None::<ResetInfo>
        } else {
            Some(
                ResetInfo { address_space: reg.address_space, address: reg.address, value: reg.value },
            )
        },
{
    if reg.address == 0 {
        return None;
    }
    Some(ResetInfo { address_space: reg.address_space, address: reg.address, value: reg.value })
}

/// What a reboot does first; whatever it does, it falls back to the
/// keyboard controller and a triple fault when the machine is still
/// running.
#[derive(Debug, Clone, Copy, PartialEq, Eq, Structural)]
pub enum RebootAction {
    /// No reset register is known.
    NoResetMechanism,
    /// The reset register is an I/O port beyond the 16-bit port space.
    InvalidPort,
    /// The reset register lives in an address space other than system I/O.
    UnsupportedAddressSpace(u8),
    /// Write `value` to the I/O port `port`.
    WritePort { port: u16, value: u8 },
}

/// Decide how to reboot with the reset mechanism `reset`.
pub fn reboot_action(reset: Option<ResetInfo>) -> (r: RebootAction)
    ensures
        r == match reset {
            None => RebootAction::NoResetMechanism,
            Some(info) => if info.address_space != ADDRESS_SPACE_SYSTEM_IO {
                RebootAction::UnsupportedAddressSpace(info.address_space)
            } else if info.address > u16::MAX {
                RebootAction::InvalidPort
            } else {
                RebootAction::WritePort { port: info.address as u16, value: info.value }
            },
        },
{
    let reset = match reset {
        Some(reset) => reset,
        None => return RebootAction::NoResetMechanism,
    };
    // Address space 0 is system memory, 1 system I/O; only system I/O is
    // supported.
    if reset.address_space == ADDRESS_SPACE_SYSTEM_IO {
        // System I/O ports are 16-bit on x86.
        if reset.address > u16::MAX as u64 {
            return RebootAction::InvalidPort;
        }
        RebootAction::WritePort { port: reset.address as u16, value: reset.value }
    } else {
        RebootAction::UnsupportedAddressSpace(reset.address_space)
    }
}

/// The name of a table with signature `sig`, for the tables the kernel
/// knows; "????" for the others.
pub open spec fn signature_name(sig: Seq<u8>) -> Seq<char> {
    if sig == seq![0x46u8, 0x41, 0x43, 0x50] {
        seq!['F', 'A', 'C', 'P']
    } else if sig == seq![0x41u8, 0x50, 0x49, 0x43] {
        seq!['A', 'P', 'I', 'C']
    } else if sig == seq![0x48u8, 0x50, 0x45, 0x54] {
        seq!['H', 'P', 'E', 'T']
    } else if sig == seq![0x4Du8, 0x43, 0x46, 0x47] {
        seq!['M', 'C', 'F', 'G']
    } else if sig == seq![0x44u8, 0x53, 0x44, 0x54] {
        seq!['D', 'S', 'D', 'T']
    } else if sig == seq![0x53u8, 0x53, 0x44, 0x54] {
        seq!['S', 'S', 'D', 'T']
    } else {
        seq!['?', '?', '?', '?']
    }
}

/// Whether `sig` is `a b c d`.
fn sig_eq(sig: [u8; 4], a: u8, b: u8, c: u8, d: u8) -> (r: bool)
    ensures
        r == (sig@ == seq![a, b, c, d]),
{
    let r = sig[0] == a && sig[1] == b && sig[2] == c && sig[3] == d;
    proof {
        if r {
            assert(sig@ =~= seq![a, b, c, d]);
        } else if sig@ == seq![a, b, c, d] {
            assert(sig@[0] == a && sig@[1] == b && sig@[2] == c && sig@[3] == d);
        }
    }
    r
}

/// The name of a table with signature `signature`: exactly
/// [`signature_name`].
pub fn signature_to_str(signature: [u8; 4]) -> (r: &'static str)
    ensures
        r@ == signature_name(signature@),
{
    proof {
        reveal_strlit("FACP");
        reveal_strlit("APIC");
        reveal_strlit("HPET");
        reveal_strlit("MCFG");
        reveal_strlit("DSDT");
        reveal_strlit("SSDT");
        reveal_strlit("????");
    }
    if sig_eq(signature, 0x46, 0x41, 0x43, 0x50) {
        "FACP"
    } else if sig_eq(signature, 0x41, 0x50, 0x49, 0x43) {
        "APIC"
    } else if sig_eq(signature, 0x48, 0x50, 0x45, 0x54) {
        "HPET"
    } else if sig_eq(signature, 0x4D, 0x43, 0x46, 0x47) {
        "MCFG"
    } else if sig_eq(signature, 0x44, 0x53, 0x44, 0x54) {
        "DSDT"
    } else if sig_eq(signature, 0x53, 0x53, 0x44, 0x54) {
        "SSDT"
    } else {
        "????"
    }
}

} // verus!
