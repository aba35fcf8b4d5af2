//! The hosted emulator backend: the same entry layout, flag polarity and
//! canonicality rule as x86-64. Its memory and registers live in an
//! explicit [`crate::machine::Machine`] value rather than on real hardware.

use vstd::prelude::*;

verus! {

use crate::PAGE_SIZE;
use crate::VirtualAddress;
use crate::arch::Arch;

pub const ENTRY_ADDRESS_SIZE: u64 = 0x0010_0000_0000_0000;  // 1 << 52
pub const ENTRY_ADDRESS_MASK: u64 = 0x000F_FFFF_FFFF_F000;  // bits 12..=51
pub const ENTRY_FLAGS_MASK: u64 = 0xFFF0_0000_0000_0FFF;
pub const ENTRY_FLAG_PRESENT: u64 = 0x1;
pub const ENTRY_FLAG_READWRITE: u64 = 0x2;
pub const ENTRY_FLAG_USER: u64 = 0x4;
pub const ENTRY_FLAG_NO_EXEC: u64 = 0x8000_0000_0000_0000;  // 1 << 63
pub const PHYS_OFFSET: u64 = 0xFFFF_8000_0000_0000;
/// Top seventeen bits of a canonical address agree: sign-extension of bit 47.
pub const CANONICAL_MASK: u64 = 0xFFFF_8000_0000_0000;

#[derive(Clone, Copy)]
pub struct EmulateArch;

impl Arch for EmulateArch {
    open spec fn spec_entry_address_size() -> u64 {
        ENTRY_ADDRESS_SIZE
    }

    open spec fn spec_entry_address_mask() -> u64 {
        ENTRY_ADDRESS_MASK
    }

    open spec fn spec_entry_address_field_mask() -> u64 {
        ENTRY_ADDRESS_MASK
    }

    open spec fn spec_entry_flags_mask() -> u64 {
        ENTRY_FLAGS_MASK
    }

    open spec fn spec_entry_flag_default_page() -> u64 {
        ENTRY_FLAG_PRESENT
    }

    open spec fn spec_entry_flag_default_table() -> u64 {
        ENTRY_FLAG_PRESENT
    }

    open spec fn spec_entry_flag_present() -> u64 {
        ENTRY_FLAG_PRESENT
    }

    open spec fn spec_entry_flag_readonly() -> u64 {
        0
    }

    open spec fn spec_entry_flag_readwrite() -> u64 {
        ENTRY_FLAG_READWRITE
    }

    open spec fn spec_entry_flag_user() -> u64 {
        ENTRY_FLAG_USER
    }

    open spec fn spec_entry_flag_no_exec() -> u64 {
        ENTRY_FLAG_NO_EXEC
    }

    open spec fn spec_entry_flag_exec() -> u64 {
        0
    }

    open spec fn spec_phys_offset() -> u64 {
        PHYS_OFFSET
    }

    open spec fn spec_frame_ok(p: u64) -> bool {
        p & ENTRY_ADDRESS_MASK == p
    }

    open spec fn spec_entry_address(data: u64) -> u64 {
        data & ENTRY_ADDRESS_MASK
    }

    open spec fn spec_entry_encode(p: u64, f: u64) -> u64 {
        p | f
    }

    open spec fn spec_virt_is_valid(address: u64) -> bool {
        address & CANONICAL_MASK == 0 || address & CANONICAL_MASK == CANONICAL_MASK
    }

    proof fn lemma_constants() {
        assert(ENTRY_ADDRESS_MASK & ENTRY_FLAGS_MASK == 0
            && ENTRY_ADDRESS_MASK | ENTRY_FLAGS_MASK == 0xFFFF_FFFF_FFFF_FFFFu64
            && ENTRY_FLAG_PRESENT & ENTRY_FLAGS_MASK == ENTRY_FLAG_PRESENT
            && ENTRY_FLAG_READWRITE & ENTRY_FLAGS_MASK == ENTRY_FLAG_READWRITE
            && ENTRY_FLAG_USER & ENTRY_FLAGS_MASK == ENTRY_FLAG_USER
            && ENTRY_FLAG_NO_EXEC & ENTRY_FLAGS_MASK == ENTRY_FLAG_NO_EXEC
            && 0u64 & ENTRY_FLAGS_MASK == 0
            && ENTRY_FLAG_PRESENT & ENTRY_FLAG_PRESENT == ENTRY_FLAG_PRESENT
            && PHYS_OFFSET % 4096 == 0) by (bit_vector);
    }

    proof fn lemma_entry_encode(p: u64, f: u64) {
        assert((p | f) & ENTRY_ADDRESS_MASK == p
            && (p | f) & ENTRY_FLAGS_MASK == f
            && p % 4096 == 0) by (bit_vector)
            requires
                p & ENTRY_ADDRESS_MASK == p,
                f & ENTRY_FLAGS_MASK == f,
        ;
    }

    proof fn lemma_entry_address_bound(data: u64) {
        assert((data & ENTRY_ADDRESS_MASK) % 4096 == 0
            && (data & ENTRY_ADDRESS_MASK) < 0x0100_0000_0000_0000u64
            && (data & ENTRY_ADDRESS_MASK) & ENTRY_ADDRESS_MASK == data
                & ENTRY_ADDRESS_MASK) by (bit_vector);
    }

    proof fn lemma_frame_ok_from_bounds(p: u64) {
        assert(p & ENTRY_ADDRESS_MASK == p) by (bit_vector)
            requires
                p % 4096 == 0,
                p < 0x0010_0000_0000_0000u64,
        ;
    }

    fn entry_address_size() -> u64 {
        ENTRY_ADDRESS_SIZE
    }

    fn entry_address_mask() -> u64 {
        ENTRY_ADDRESS_MASK
    }

    fn entry_flags_mask() -> u64 {
        ENTRY_FLAGS_MASK
    }

    fn entry_flag_default_page() -> u64 {
        ENTRY_FLAG_PRESENT
    }

    fn entry_flag_default_table() -> u64 {
        ENTRY_FLAG_PRESENT
    }

    fn entry_flag_present() -> u64 {
        ENTRY_FLAG_PRESENT
    }

    fn entry_flag_readonly() -> u64 {
        0
    }

    fn entry_flag_readwrite() -> u64 {
        ENTRY_FLAG_READWRITE
    }

    fn entry_flag_user() -> u64 {
        ENTRY_FLAG_USER
    }

    fn entry_flag_no_exec() -> u64 {
        ENTRY_FLAG_NO_EXEC
    }

    fn entry_flag_exec() -> u64 {
        0
    }

    fn phys_offset() -> u64 {
        PHYS_OFFSET
    }

    fn entry_address(data: u64) -> u64 {
        data & ENTRY_ADDRESS_MASK
    }

    fn entry_encode(p: u64, f: u64) -> u64 {
        p | f
    }

    fn virt_is_valid(address: VirtualAddress) -> bool {
        let masked: u64 = address.0 & CANONICAL_MASK;
        masked == 0 || masked == CANONICAL_MASK
    }
}

} // verus!
