//! Flush tokens: every mapper mutation returns one, and it can only be
//! discharged by performing the TLB invalidation (or consciously ignored),
//! so stale-TLB bugs are visible in the API's shape.

use vstd::prelude::*;

verus! {

use crate::VirtualAddress;
use crate::machine::Machine;

/// Something that can absorb pending single-page flushes, for callers that
/// batch them.
pub trait Flusher {
    fn consume(&mut self, flush: PageFlush);
}

/// A pending invalidation of one virtual address.
#[must_use]
pub struct PageFlush {
    virt: VirtualAddress,
}

impl PageFlush {
    pub closed spec fn spec_virt(self) -> VirtualAddress {
        self.virt
    }

    pub fn new(virt: VirtualAddress) -> (r: Self)
        ensures
            r.spec_virt() == virt,
    {
        Self { virt }
    }

    /// Perform the invalidation on the machine.
    pub fn flush(self, mem: &mut Machine)
        ensures
            final(mem).mem() == old(mem).mem(),
            final(mem).spec_table() == old(mem).spec_table(),
            final(mem).spec_tlb_fresh(),
    {
        mem.invalidate(self.virt);
    }

    /// Accept a stale TLB: drop the token without flushing.
    pub fn ignore(self) {
    }
}

/// A pending invalidation of the whole TLB.
#[must_use]
pub struct PageFlushAll {
}

impl PageFlushAll {
    pub fn new() -> (r: Self) {
        Self {}
    }

    /// Perform the full invalidation on the machine.
    pub fn flush(self, mem: &mut Machine)
        ensures
            final(mem).mem() == old(mem).mem(),
            final(mem).spec_table() == old(mem).spec_table(),
            final(mem).spec_tlb_fresh(),
    {
        mem.invalidate_all();
    }

    /// Accept a stale TLB: drop the token without flushing.
    pub fn ignore(self) {
    }
}

impl Flusher for PageFlushAll {
    /// A full flush subsumes any pending single-page flush.
    fn consume(&mut self, flush: PageFlush) {
        flush.ignore();
    }
}

impl Flusher for () {
    fn consume(&mut self, flush: PageFlush) {
        flush.ignore();
    }
}

} // verus!
