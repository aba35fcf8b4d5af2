//! The architecture abstraction: per-architecture page-table entry layout,
//! flag polarity, linear-map base and canonicality rules. The page-table
//! geometry (page size, entries per table, levels) is shared by every
//! supported architecture and lives in the crate root.

use vstd::prelude::*;

pub mod aarch64;
pub mod emulate;
pub mod riscv64;
pub mod x86_64;

verus! {

use crate::PAGE_SIZE;
use crate::PhysicalAddress;
use crate::VirtualAddress;

/// One architecture: the constants that describe how a page-table entry
/// encodes a physical frame address and its permission flags, where the
/// kernel's linear map of physical memory begins, and which virtual
/// addresses the hardware accepts.
///
/// `lemma_constants` and `lemma_entry_encode` are proof obligations: every
/// backend must show that its flag bits live inside `entry_flags_mask`, that
/// the address field and the flag field of an entry are disjoint and
/// together cover the word, and that encoding a frame address with flags can
/// be decoded again.
pub trait Arch: Sized {
    /// Size of the physical-address field of an entry (one past its
    /// largest raw field value).
    spec fn spec_entry_address_size() -> u64;

    /// Mask applied to an entry's raw address field.
    spec fn spec_entry_address_mask() -> u64;

    /// The bits of an entry word that hold the physical-address field.
    spec fn spec_entry_address_field_mask() -> u64;

    /// The bits of an entry word that hold flags.
    spec fn spec_entry_flags_mask() -> u64;

    /// Flags every mapped page needs on this architecture.
    spec fn spec_entry_flag_default_page() -> u64;

    /// Flags every table pointer needs on this architecture.
    spec fn spec_entry_flag_default_table() -> u64;

    spec fn spec_entry_flag_present() -> u64;

    spec fn spec_entry_flag_readonly() -> u64;

    spec fn spec_entry_flag_readwrite() -> u64;

    spec fn spec_entry_flag_user() -> u64;

    spec fn spec_entry_flag_no_exec() -> u64;

    spec fn spec_entry_flag_exec() -> u64;

    /// Virtual base of the kernel's linear map of all physical memory.
    spec fn spec_phys_offset() -> u64;

    /// Whether `p` is a frame address this architecture can store in a
    /// page-table entry: page-aligned and within the entry's address field.
    spec fn spec_frame_ok(p: u64) -> bool;

    /// The physical address stored in the entry word `data`.
    spec fn spec_entry_address(data: u64) -> u64;

    /// The entry word that maps frame `p` with flag bits `f`.
    spec fn spec_entry_encode(p: u64, f: u64) -> u64;

    /// Architectural canonicality of a virtual address.
    spec fn spec_virt_is_valid(address: u64) -> bool;

    /// The laws every backend owes: the address field and the flag field
    /// of an entry are disjoint and cover the whole word; every flag
    /// constant lies inside the flag field; the defaults carry the present
    /// bit; the linear-map base is page-aligned.
    proof fn lemma_constants()
        ensures
            Self::spec_entry_address_field_mask() & Self::spec_entry_flags_mask() == 0,
            Self::spec_entry_address_field_mask() | Self::spec_entry_flags_mask() == u64::MAX,
            Self::spec_entry_flag_present() != 0,
            Self::spec_entry_flag_present() & Self::spec_entry_flags_mask()
                == Self::spec_entry_flag_present(),
            Self::spec_entry_flag_default_page() & Self::spec_entry_flags_mask()
                == Self::spec_entry_flag_default_page(),
            Self::spec_entry_flag_default_table() & Self::spec_entry_flags_mask()
                == Self::spec_entry_flag_default_table(),
            Self::spec_entry_flag_readonly() & Self::spec_entry_flags_mask()
                == Self::spec_entry_flag_readonly(),
            Self::spec_entry_flag_readwrite() & Self::spec_entry_flags_mask()
                == Self::spec_entry_flag_readwrite(),
            Self::spec_entry_flag_user() & Self::spec_entry_flags_mask()
                == Self::spec_entry_flag_user(),
            Self::spec_entry_flag_no_exec() & Self::spec_entry_flags_mask()
                == Self::spec_entry_flag_no_exec(),
            Self::spec_entry_flag_exec() & Self::spec_entry_flags_mask()
                == Self::spec_entry_flag_exec(),
            Self::spec_entry_flag_default_page() & Self::spec_entry_flag_present()
                == Self::spec_entry_flag_present(),
            Self::spec_entry_flag_default_table() & Self::spec_entry_flag_present()
                == Self::spec_entry_flag_present(),
            Self::spec_phys_offset() % PAGE_SIZE == 0,
    ;

    /// Decoding an encoded entry gives back the frame address and the
    /// flags, and a frame address is always page-aligned.
    proof fn lemma_entry_encode(p: u64, f: u64)
        requires
            Self::spec_frame_ok(p),
            f & Self::spec_entry_flags_mask() == f,
        ensures
            Self::spec_entry_address(Self::spec_entry_encode(p, f)) == p,
            Self::spec_entry_encode(p, f) & Self::spec_entry_flags_mask() == f,
            p % PAGE_SIZE == 0,
    ;

    /// The decoded address field of any entry word is page-aligned and
    /// below 2^56.
    proof fn lemma_entry_address_bound(data: u64)
        ensures
            Self::spec_entry_address(data) % PAGE_SIZE == 0,
            Self::spec_entry_address(data) < 0x0100_0000_0000_0000,
            Self::spec_frame_ok(Self::spec_entry_address(data)),
    ;

    /// Any page-aligned address below the entry address field's reach can
    /// be stored in an entry.
    proof fn lemma_frame_ok_from_bounds(p: u64)
        requires
            p % PAGE_SIZE == 0,
            p < 0x0010_0000_0000_0000,
        ensures
            Self::spec_frame_ok(p),
    ;

    fn entry_address_size() -> (r: u64)
        ensures
            r == Self::spec_entry_address_size(),
    ;

    fn entry_address_mask() -> (r: u64)
        ensures
            r == Self::spec_entry_address_mask(),
    ;

    fn entry_flags_mask() -> (r: u64)
        ensures
            r == Self::spec_entry_flags_mask(),
    ;

    fn entry_flag_default_page() -> (r: u64)
        ensures
            r == Self::spec_entry_flag_default_page(),
    ;

    fn entry_flag_default_table() -> (r: u64)
        ensures
            r == Self::spec_entry_flag_default_table(),
    ;

    fn entry_flag_present() -> (r: u64)
        ensures
            r == Self::spec_entry_flag_present(),
    ;

    fn entry_flag_readonly() -> (r: u64)
        ensures
            r == Self::spec_entry_flag_readonly(),
    ;

    fn entry_flag_readwrite() -> (r: u64)
        ensures
            r == Self::spec_entry_flag_readwrite(),
    ;

    fn entry_flag_user() -> (r: u64)
        ensures
            r == Self::spec_entry_flag_user(),
    ;

    fn entry_flag_no_exec() -> (r: u64)
        ensures
            r == Self::spec_entry_flag_no_exec(),
    ;

    fn entry_flag_exec() -> (r: u64)
        ensures
            r == Self::spec_entry_flag_exec(),
    ;

    fn phys_offset() -> (r: u64)
        ensures
            r == Self::spec_phys_offset(),
    ;

    fn entry_address(data: u64) -> (r: u64)
        ensures
            r == Self::spec_entry_address(data),
    ;

    fn entry_encode(p: u64, f: u64) -> (r: u64)
        requires
            Self::spec_frame_ok(p),
        ensures
            r == Self::spec_entry_encode(p, f),
    ;

    fn virt_is_valid(address: VirtualAddress) -> (r: bool)
        ensures
            r == Self::spec_virt_is_valid(address.0),
    ;
}

/// Constants consistency, for any backend: the derived geometry matches
/// the shifts that define it, an entry's address field and flag field are
/// disjoint and together cover the word, and the linear-map base is
/// page-aligned.
pub proof fn lemma_arch_constants_consistent<A: Arch>()
    ensures
        crate::PAGE_SIZE == 1u64 << crate::PAGE_SHIFT,
        crate::PAGE_ENTRIES == 1u64 << crate::PAGE_ENTRY_SHIFT,
        A::spec_entry_address_field_mask() & A::spec_entry_flags_mask() == 0,
        A::spec_entry_address_field_mask() | A::spec_entry_flags_mask() == u64::MAX,
        A::spec_phys_offset() % PAGE_SIZE == 0,
{
    crate::lemma_page_geometry();
    A::lemma_constants();
}

/// Where the kernel's linear map places the physical address `phys`.
pub fn phys_to_virt<A: Arch>(phys: PhysicalAddress) -> (r: VirtualAddress)
    requires
        phys.0 + A::spec_phys_offset() <= u64::MAX,
    ensures
        r.0 == phys.0 + A::spec_phys_offset(),
{
    VirtualAddress::new(phys.0 + A::phys_offset())
}

} // verus!
