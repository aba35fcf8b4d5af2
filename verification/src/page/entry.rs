//! One page-table entry word: an encoded physical frame address plus flag
//! bits, decoded through the architecture's entry layout.

use vstd::prelude::*;

verus! {

use core::marker::PhantomData;
use crate::PhysicalAddress;
use crate::arch::Arch;
use crate::page::flags::PageFlags;

/// One entry word of a page table.
pub struct PageEntry<A: Arch> {
    data: u64,
    arch: PhantomData<A>,
}

impl<A: Arch> Clone for PageEntry<A> {
    fn clone(&self) -> (r: Self)
        ensures
            r.spec_data() == self.spec_data(),
    {
        Self { data: self.data, arch: PhantomData }
    }
}

impl<A: Arch> Copy for PageEntry<A> {

}

impl<A: Arch> PageEntry<A> {
    pub closed spec fn spec_data(self) -> u64 {
        self.data
    }

    pub fn new(data: u64) -> (r: Self)
        ensures
            r.spec_data() == data,
    {
        Self { data, arch: PhantomData }
    }

    /// The entry that maps the frame at `address` with the flag bits of
    /// `flags`.
    pub fn encode(address: PhysicalAddress, flags: PageFlags<A>) -> (r: Self)
        requires
            A::spec_frame_ok(address.0),
        ensures
            r.spec_data() == A::spec_entry_encode(address.0, flags.spec_data()),
    {
        Self { data: A::entry_encode(address.0, flags.data()), arch: PhantomData }
    }

    pub fn data(&self) -> (r: u64)
        ensures
            r == self.spec_data(),
    {
        self.data
    }

    /// The physical frame address stored in the entry.
    pub fn address(&self) -> (r: PhysicalAddress)
        ensures
            r.0 == A::spec_entry_address(self.spec_data()),
    {
        PhysicalAddress::new(A::entry_address(self.data))
    }

    /// The flag bits of the entry.
    pub fn flags(&self) -> (r: u64)
        ensures
            r == self.spec_data() & A::spec_entry_flags_mask(),
    {
        self.data & A::entry_flags_mask()
    }

    pub fn present(&self) -> (r: bool)
        ensures
            r == (self.spec_data() & A::spec_entry_flag_present() != 0),
    {
        self.data & A::entry_flag_present() != 0
    }
}

} // verus!
