//! The RISC-V Sv48 backend: 4-level paging with the physical page number
//! kept in a 44-bit field at bit 10 of the entry, R/W/X permission bits set
//! positively, and the same canonical (sign-extended) address rule as
//! 4-level x86-64.

use vstd::prelude::*;

verus! {

use crate::PAGE_SIZE;
use crate::VirtualAddress;
use crate::arch::Arch;

pub const ENTRY_ADDRESS_SIZE: u64 = 0x0000_1000_0000_0000;  // 1 << 44
pub const ENTRY_ADDRESS_MASK: u64 = 0x0000_0FFF_FFFF_FFFF;  // 44-bit physical page number
/// Where the physical page number sits inside the entry word.
pub const ENTRY_ADDRESS_SHIFT: u64 = 10;
pub const ENTRY_FLAGS_MASK: u64 = 0xFFC0_0000_0000_03FF;
pub const ENTRY_FLAG_PRESENT: u64 = 0x1;
pub const ENTRY_FLAG_READONLY: u64 = 0x2;  // R
pub const ENTRY_FLAG_READWRITE: u64 = 0x6;  // R | W
pub const ENTRY_FLAG_EXEC: u64 = 0x8;  // X
pub const ENTRY_FLAG_USER: u64 = 0x10;  // U
pub const PHYS_OFFSET: u64 = 0xFFFF_8000_0000_0000;
/// Top seventeen bits of a canonical address agree: sign-extension of bit 47.
pub const CANONICAL_MASK: u64 = 0xFFFF_8000_0000_0000;

#[derive(Clone, Copy)]
pub struct RiscV64Sv48Arch;

impl Arch for RiscV64Sv48Arch {
    open spec fn spec_entry_address_size() -> u64 {
        ENTRY_ADDRESS_SIZE
    }

    open spec fn spec_entry_address_mask() -> u64 {
        ENTRY_ADDRESS_MASK
    }

    open spec fn spec_entry_address_field_mask() -> u64 {
        0x003F_FFFF_FFFF_FC00  // ENTRY_ADDRESS_MASK << ENTRY_ADDRESS_SHIFT
    }

    open spec fn spec_entry_flags_mask() -> u64 {
        ENTRY_FLAGS_MASK
    }

    open spec fn spec_entry_flag_default_page() -> u64 {
        ENTRY_FLAG_PRESENT | ENTRY_FLAG_READONLY
    }

    open spec fn spec_entry_flag_default_table() -> u64 {
        ENTRY_FLAG_PRESENT
    }

    open spec fn spec_entry_flag_present() -> u64 {
        ENTRY_FLAG_PRESENT
    }

    open spec fn spec_entry_flag_readonly() -> u64 {
        ENTRY_FLAG_READONLY
    }

    open spec fn spec_entry_flag_readwrite() -> u64 {
        ENTRY_FLAG_READWRITE
    }

    open spec fn spec_entry_flag_user() -> u64 {
        ENTRY_FLAG_USER
    }

    open spec fn spec_entry_flag_no_exec() -> u64 {
        0
    }

    open spec fn spec_entry_flag_exec() -> u64 {
        ENTRY_FLAG_EXEC
    }

    open spec fn spec_phys_offset() -> u64 {
        PHYS_OFFSET
    }

    open spec fn spec_frame_ok(p: u64) -> bool {
        p % 4096 == 0 && p < 0x0100_0000_0000_0000  // a 44-bit physical page number
    }

    open spec fn spec_entry_address(data: u64) -> u64 {
        ((data >> ENTRY_ADDRESS_SHIFT) & ENTRY_ADDRESS_MASK) << 12
    }

    open spec fn spec_entry_encode(p: u64, f: u64) -> u64 {
        ((p >> 12) << ENTRY_ADDRESS_SHIFT) | f
    }

    open spec fn spec_virt_is_valid(address: u64) -> bool {
        address & CANONICAL_MASK == 0 || address & CANONICAL_MASK == CANONICAL_MASK
    }

    proof fn lemma_constants() {
        assert(0x003F_FFFF_FFFF_FC00u64 & ENTRY_FLAGS_MASK == 0
            && 0x003F_FFFF_FFFF_FC00u64 | ENTRY_FLAGS_MASK == 0xFFFF_FFFF_FFFF_FFFFu64
            && ENTRY_FLAG_PRESENT & ENTRY_FLAGS_MASK == ENTRY_FLAG_PRESENT
            && (ENTRY_FLAG_PRESENT | ENTRY_FLAG_READONLY) & ENTRY_FLAGS_MASK
                == (ENTRY_FLAG_PRESENT | ENTRY_FLAG_READONLY)
            && ENTRY_FLAG_READONLY & ENTRY_FLAGS_MASK == ENTRY_FLAG_READONLY
            && ENTRY_FLAG_READWRITE & ENTRY_FLAGS_MASK == ENTRY_FLAG_READWRITE
            && ENTRY_FLAG_USER & ENTRY_FLAGS_MASK == ENTRY_FLAG_USER
            && ENTRY_FLAG_EXEC & ENTRY_FLAGS_MASK == ENTRY_FLAG_EXEC
            && 0u64 & ENTRY_FLAGS_MASK == 0
            && (ENTRY_FLAG_PRESENT | ENTRY_FLAG_READONLY) & ENTRY_FLAG_PRESENT
                == ENTRY_FLAG_PRESENT
            && ENTRY_FLAG_PRESENT & ENTRY_FLAG_PRESENT == ENTRY_FLAG_PRESENT
            && PHYS_OFFSET % 4096 == 0) by (bit_vector);
    }

    proof fn lemma_entry_encode(p: u64, f: u64) {
        assert(((((((p >> 12) << ENTRY_ADDRESS_SHIFT) | f) >> ENTRY_ADDRESS_SHIFT)
                & ENTRY_ADDRESS_MASK) << 12) == p
            && (((p >> 12) << ENTRY_ADDRESS_SHIFT) | f) & ENTRY_FLAGS_MASK == f
            && p % 4096 == 0) by (bit_vector)
            requires
                p % 4096 == 0,
                p < 0x0100_0000_0000_0000u64,
                f & ENTRY_FLAGS_MASK == f,
        ;
    }

    proof fn lemma_entry_address_bound(data: u64) {
        assert((((data >> ENTRY_ADDRESS_SHIFT) & ENTRY_ADDRESS_MASK) << 12) % 4096 == 0
            && (((data >> ENTRY_ADDRESS_SHIFT) & ENTRY_ADDRESS_MASK) << 12)
                < 0x0100_0000_0000_0000u64) by (bit_vector);
    }

    proof fn lemma_frame_ok_from_bounds(p: u64) {
    }

    fn entry_address_size() -> u64 {
        ENTRY_ADDRESS_SIZE
    }

    fn entry_address_mask() -> u64 {
        ENTRY_ADDRESS_MASK
    }

    fn entry_flags_mask() -> u64 {
        ENTRY_FLAGS_MASK
    }

    fn entry_flag_default_page() -> u64 {
        ENTRY_FLAG_PRESENT | ENTRY_FLAG_READONLY
    }

    fn entry_flag_default_table() -> u64 {
        ENTRY_FLAG_PRESENT
    }

    fn entry_flag_present() -> u64 {
        ENTRY_FLAG_PRESENT
    }

    fn entry_flag_readonly() -> u64 {
        ENTRY_FLAG_READONLY
    }

    fn entry_flag_readwrite() -> u64 {
        ENTRY_FLAG_READWRITE
    }

    fn entry_flag_user() -> u64 {
        ENTRY_FLAG_USER
    }

    fn entry_flag_no_exec() -> u64 {
        0
    }

    fn entry_flag_exec() -> u64 {
        ENTRY_FLAG_EXEC
    }

    fn phys_offset() -> u64 {
        PHYS_OFFSET
    }

    fn entry_address(data: u64) -> u64 {
        ((data >> ENTRY_ADDRESS_SHIFT) & ENTRY_ADDRESS_MASK) << 12
    }

    fn entry_encode(p: u64, f: u64) -> u64 {
        ((p >> 12) << ENTRY_ADDRESS_SHIFT) | f
    }

    fn virt_is_valid(address: VirtualAddress) -> bool {
        let masked: u64 = address.0 & CANONICAL_MASK;
        masked == 0 || masked == CANONICAL_MASK
    }
}

} // verus!
