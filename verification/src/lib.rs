//! A recursive memory manager: physical-frame allocators and page-table
//! manipulation for a paged virtual-memory system, parameterized by a small
//! architecture abstraction and exercised against a hosted machine emulator.

use vstd::prelude::*;

pub mod allocator;
pub mod arch;
pub mod machine;
pub mod page;

pub use crate::allocator::FrameAllocator;
pub use crate::allocator::FrameCount;
pub use crate::allocator::FrameUsage;
pub use crate::allocator::buddy::BuddyAllocator;
pub use crate::allocator::buddy::BuddyEntry;
pub use crate::allocator::bump::BumpAllocator;
pub use crate::arch::Arch;
pub use crate::arch::aarch64::AArch64Arch;
pub use crate::arch::emulate::EmulateArch;
pub use crate::arch::phys_to_virt;
pub use crate::arch::riscv64::RiscV64Sv48Arch;
pub use crate::arch::x86_64::X8664Arch;
pub use crate::machine::Machine;
pub use crate::page::entry::PageEntry;
pub use crate::page::flags::PageFlags;
pub use crate::page::flush::Flusher;
pub use crate::page::flush::PageFlush;
pub use crate::page::flush::PageFlushAll;
pub use crate::page::mapper::PageMapper;
pub use crate::page::table::PageTable;

verus! {


pub const KILOBYTE: u64 = 1024;
pub const MEGABYTE: u64 = KILOBYTE * KILOBYTE;
pub const GIGABYTE: u64 = KILOBYTE * MEGABYTE;
pub const TERABYTE: u64 = KILOBYTE * GIGABYTE;

/// Log2 of the page size: every supported architecture uses 4 KiB pages.
pub const PAGE_SHIFT: u64 = 12;
/// Log2 of the number of entries in one page table.
pub const PAGE_ENTRY_SHIFT: u64 = 9;
/// Number of levels in the page-table hierarchy.
pub const PAGE_LEVELS: u64 = 4;

pub const PAGE_SIZE: u64 = 4096;
pub const PAGE_OFFSET_MASK: u64 = 0xFFF;
pub const PAGE_ADDRESS_SHIFT: u64 = 48;
pub const PAGE_ADDRESS_SIZE: u64 = 0x0001_0000_0000_0000;
pub const PAGE_ADDRESS_MASK: u64 = 0x0000_FFFF_FFFF_F000;
pub const PAGE_ENTRY_SIZE: u64 = 8;
pub const PAGE_ENTRIES: u64 = 512;
pub const PAGE_ENTRY_MASK: u64 = 0x1FF;
pub const PAGE_NEGATIVE_MASK: u64 = 0xFFFF_0000_0000_0000;

/// The geometry constants above are the closed forms of the shifts and
/// masks that define them.
pub proof fn lemma_page_geometry()
    ensures
        PAGE_SIZE == 1u64 << PAGE_SHIFT,
        PAGE_OFFSET_MASK == PAGE_SIZE - 1,
        PAGE_ADDRESS_SHIFT == PAGE_LEVELS * PAGE_ENTRY_SHIFT + PAGE_SHIFT,
        PAGE_ADDRESS_SIZE == 1u64 << PAGE_ADDRESS_SHIFT,
        PAGE_ADDRESS_MASK == PAGE_ADDRESS_SIZE - PAGE_SIZE,
        PAGE_ENTRY_SIZE == 1u64 << (PAGE_SHIFT - PAGE_ENTRY_SHIFT),
        PAGE_ENTRIES == 1u64 << PAGE_ENTRY_SHIFT,
        PAGE_ENTRY_MASK == PAGE_ENTRIES - 1,
        PAGE_NEGATIVE_MASK == !(((PAGE_ADDRESS_SIZE - 1) as u64)),
        PAGE_SIZE == PAGE_ENTRIES * PAGE_ENTRY_SIZE,
{
    assert(4096u64 == 1u64 << 12u64
        && 0x0001_0000_0000_0000u64 == 1u64 << 48u64
        && 8u64 == 1u64 << 3u64
        && 512u64 == 1u64 << 9u64
        && 0xFFFF_0000_0000_0000u64 == !(((0x0001_0000_0000_0000u64 - 1) as u64))) by (bit_vector);
}

/// Specific table to be used, needed on architectures that keep separate
/// roots for the user and kernel halves of the address space.
#[derive(Clone, Copy, Debug, Eq, PartialEq, Structural)]
pub enum TableKind {
    /// Userspace page table
    User,
    /// Kernel page table
    Kernel,
}

/// Physical memory address
#[derive(Clone, Copy, Debug, Eq, PartialEq, Structural)]
pub struct PhysicalAddress(pub u64);

impl PhysicalAddress {
    pub fn new(address: u64) -> (r: Self)
        ensures
            r.0 == address,
    {
        Self(address)
    }

    pub fn data(&self) -> (r: u64)
        ensures
            r == self.0,
    {
        self.0
    }

    pub fn add(self, offset: u64) -> (r: Self)
        requires
            self.0 + offset <= u64::MAX,
        ensures
            r.0 == self.0 + offset,
    {
        Self(self.0 + offset)
    }
}

/// Virtual memory address
#[derive(Clone, Copy, Debug, Eq, PartialEq, Structural)]
pub struct VirtualAddress(pub u64);

impl VirtualAddress {
    /// The table kind an address selects: the high (sign-negative) half of
    /// the address space belongs to the kernel.
    pub open spec fn spec_kind(self) -> TableKind {
        if self.0 >= 0x8000_0000_0000_0000 {
            TableKind::Kernel
        } else {
            TableKind::User
        }
    }

    pub fn new(address: u64) -> (r: Self)
        ensures
            r.0 == address,
    {
        Self(address)
    }

    pub fn data(&self) -> (r: u64)
        ensures
            r == self.0,
    {
        self.0
    }

    pub fn add(self, offset: u64) -> (r: Self)
        requires
            self.0 + offset <= u64::MAX,
        ensures
            r.0 == self.0 + offset,
    {
        Self(self.0 + offset)
    }

    pub fn kind(&self) -> (r: TableKind)
        ensures
            r == self.spec_kind(),
    {
        if self.0 >= 0x8000_0000_0000_0000 {
            TableKind::Kernel
        } else {
            TableKind::User
        }
    }
}

/// One contiguous region of physical RAM handed in by the boot environment.
#[derive(Clone, Copy, Debug, Eq, PartialEq, Structural)]
pub struct MemoryArea {
    pub base: PhysicalAddress,
    pub size: u64,
}

} // verus!
