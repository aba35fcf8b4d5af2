//! Per-architecture constants and canonicality checks.

use rmm::arch::aarch64 as aarch64_consts;
use rmm::arch::riscv64 as sv48_consts;
use rmm::arch::x86_64 as x86_64_consts;
use rmm::Arch;
use rmm::AArch64Arch;
use rmm::RiscV64Sv48Arch;
use rmm::VirtualAddress;
use rmm::X8664Arch;

#[test]
fn x86_64_constants() {
    assert_eq!(rmm::PAGE_SIZE, 4096);
    assert_eq!(rmm::PAGE_OFFSET_MASK, 0xFFF);
    assert_eq!(rmm::PAGE_ADDRESS_SHIFT, 48);
    assert_eq!(rmm::PAGE_ADDRESS_SIZE, 0x0001_0000_0000_0000);
    assert_eq!(rmm::PAGE_ADDRESS_MASK, 0x0000_FFFF_FFFF_F000);
    assert_eq!(rmm::PAGE_ENTRY_SIZE, 8);
    assert_eq!(rmm::PAGE_ENTRIES, 512);
    assert_eq!(rmm::PAGE_ENTRY_MASK, 0x1FF);
    assert_eq!(rmm::PAGE_NEGATIVE_MASK, 0xFFFF_0000_0000_0000);

    assert_eq!(X8664Arch::entry_address_size(), 0x0010_0000_0000_0000);
    assert_eq!(X8664Arch::entry_address_mask(), 0x000F_FFFF_FFFF_F000);
    assert_eq!(X8664Arch::entry_flags_mask(), 0xFFF0_0000_0000_0FFF);

    assert_eq!(X8664Arch::phys_offset(), 0xFFFF_8000_0000_0000);
}

#[test]
fn aarch64_constants() {
    assert_eq!(rmm::PAGE_SIZE, 4096);
    assert_eq!(rmm::PAGE_OFFSET_MASK, 0xFFF);
    assert_eq!(rmm::PAGE_ADDRESS_SHIFT, 48);
    assert_eq!(rmm::PAGE_ADDRESS_SIZE, 0x0001_0000_0000_0000);
    assert_eq!(rmm::PAGE_ADDRESS_MASK, 0x0000_FFFF_FFFF_F000);
    assert_eq!(rmm::PAGE_ENTRY_SIZE, 8);
    assert_eq!(rmm::PAGE_ENTRIES, 512);
    assert_eq!(rmm::PAGE_ENTRY_MASK, 0x1FF);
    assert_eq!(rmm::PAGE_NEGATIVE_MASK, 0xFFFF_0000_0000_0000);

    assert_eq!(AArch64Arch::entry_address_size(), 0x0010_0000_0000_0000);
    assert_eq!(AArch64Arch::entry_address_mask(), 0x000F_FFFF_FFFF_F000);
    assert_eq!(AArch64Arch::entry_flags_mask(), 0xFFF0_0000_0000_0FFF);

    assert_eq!(AArch64Arch::phys_offset(), 0xFFFF_FE00_0000_0000);
}

#[test]
fn sv48_constants() {
    assert_eq!(rmm::PAGE_SIZE, 4096);
    assert_eq!(rmm::PAGE_OFFSET_MASK, 0xFFF);
    assert_eq!(rmm::PAGE_ADDRESS_SHIFT, 48);
    assert_eq!(rmm::PAGE_ADDRESS_SIZE, 0x0001_0000_0000_0000);
    assert_eq!(rmm::PAGE_ADDRESS_MASK, 0x0000_FFFF_FFFF_F000);
    assert_eq!(rmm::PAGE_ENTRY_SIZE, 8);
    assert_eq!(rmm::PAGE_ENTRIES, 512);
    assert_eq!(rmm::PAGE_ENTRY_MASK, 0x1FF);
    assert_eq!(rmm::PAGE_NEGATIVE_MASK, 0xFFFF_0000_0000_0000);

    assert_eq!(RiscV64Sv48Arch::entry_address_size(), 0x0000_1000_0000_0000);
    assert_eq!(RiscV64Sv48Arch::entry_address_mask(), 0x0000_0FFF_FFFF_FFFF);
    assert_eq!(RiscV64Sv48Arch::entry_flags_mask(), 0xFFC0_0000_0000_03FF);

    assert_eq!(RiscV64Sv48Arch::phys_offset(), 0xFFFF_8000_0000_0000);
}

#[test]
fn is_canonical() {
    fn yes(address: u64) {
        assert!(RiscV64Sv48Arch::virt_is_valid(VirtualAddress::new(address)));
    }
    fn no(address: u64) {
        assert!(!RiscV64Sv48Arch::virt_is_valid(VirtualAddress::new(address)));
    }

    yes(0xFFFF_8000_1337_1337);
    yes(0xFFFF_FFFF_FFFF_FFFF);
    yes(0x0000_0000_0000_0042);
    yes(0x0000_7FFF_FFFF_FFFF);
    no(0x1337_0000_0000_0000);
    no(0x1337_8000_0000_0000);
    no(0x0000_8000_0000_0000);
}

#[test]
fn x86_64_is_canonical() {
    assert!(X8664Arch::virt_is_valid(VirtualAddress::new(0xFFFF_8000_1337_1337)));
    assert!(!X8664Arch::virt_is_valid(VirtualAddress::new(0x0000_8000_0000_0000)));
    assert!(!X8664Arch::virt_is_valid(VirtualAddress::new(0x1337_0000_0000_0000)));
    assert!(X8664Arch::virt_is_valid(VirtualAddress::new(0x0000_7FFF_FFFF_F000)));
}

#[test]
fn backend_constant_modules_agree() {
    assert_eq!(x86_64_consts::PHYS_OFFSET, X8664Arch::phys_offset());
    assert_eq!(aarch64_consts::PHYS_OFFSET, AArch64Arch::phys_offset());
    assert_eq!(sv48_consts::PHYS_OFFSET, RiscV64Sv48Arch::phys_offset());
}
