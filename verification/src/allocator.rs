//! Physical-frame allocation: counts measured in frames, usage reporting,
//! and the allocator interface shared by the bump and buddy allocators.
//! Every operation is specified exactly: `spec_allocate` names the address
//! an allocator hands out next, so callers know not just that a free frame
//! comes back but which one.

use vstd::prelude::*;

pub mod buddy;
pub mod bump;

verus! {

use crate::MemoryArea;
use crate::PAGE_SIZE;
use crate::PhysicalAddress;
use crate::machine::Machine;

/// A number of page frames.
#[derive(Clone, Copy, Debug, Eq, PartialEq, Structural)]
pub struct FrameCount(pub u64);

impl FrameCount {
    pub fn new(count: u64) -> (r: Self)
        ensures
            r.0 == count,
    {
        Self(count)
    }

    pub fn data(&self) -> (r: u64)
        ensures
            r == self.0,
    {
        self.0
    }
}

/// How many frames an allocator has handed out and how many it manages.
#[derive(Clone, Copy, Debug, Eq, PartialEq, Structural)]
pub struct FrameUsage {
    used: FrameCount,
    total: FrameCount,
}

impl FrameUsage {
    #[verifier::type_invariant]
    spec fn counts_consistent(self) -> bool {
        self.used.0 <= self.total.0
    }

    pub fn new(used: FrameCount, total: FrameCount) -> (r: Self)
        requires
            used.0 <= total.0,
        ensures
            r.spec_used() == used.0,
            r.spec_total() == total.0,
    {
        Self { used, total }
    }

    pub closed spec fn spec_used(self) -> u64 {
        self.used.0
    }

    pub closed spec fn spec_total(self) -> u64 {
        self.total.0
    }

    pub fn used(&self) -> (r: FrameCount)
        ensures
            r.0 == self.spec_used(),
    {
        self.used
    }

    pub fn free(&self) -> (r: FrameCount)
        ensures
            r.0 == self.spec_total() - self.spec_used(),
    {
        proof {
            use_type_invariant(&*self);
        }
        FrameCount(self.total.0 - self.used.0)
    }

    pub fn total(&self) -> (r: FrameCount)
        ensures
            r.0 == self.spec_total(),
    {
        self.total
    }
}

/// A physical-frame allocator over the machine's RAM.
///
/// `spec_is_free` is the allocator's own book-keeping: which frame bases it
/// would still hand out. `spec_allocate` pins the exact address the next
/// allocation of a given length returns, and `spec_can_free` the exact
/// condition under which a free request is honoured, so that each
/// implementation's placement policy is part of its contract.
pub trait FrameAllocator: Sized {
    /// The allocator's bookkeeping is consistent for a machine of
    /// `mem_len` bytes of physical RAM.
    spec fn inv(&self, mem_len: int) -> bool;

    /// Whether the frame starting at `frame` is currently free.
    spec fn spec_is_free(&self, frame: u64) -> bool;

    /// The number of frames this allocator manages.
    spec fn spec_total_frames(&self) -> int;

    /// The number of managed frames not currently free.
    spec fn spec_used_frames(&self) -> int;

    /// The address `allocate` returns for a run of `count` frames, if any.
    spec fn spec_allocate(&self, count: u64) -> Option<u64>;

    /// Whether `free` accepts a run of `count` frames at `address`.
    spec fn spec_can_free(&self, address: u64, count: u64) -> bool;

    /// Enough bookkeeping consistency to report usage.
    spec fn spec_usage_wf(&self) -> bool;

    /// The regions this allocator carves frames from, in order. Allocating
    /// and freeing never change them.
    spec fn spec_layout(&self) -> Seq<MemoryArea>;

    /// Allocate `count` contiguous frames and zero them.
    fn allocate(&mut self, mem: &mut Machine, count: FrameCount) -> (r: Option<PhysicalAddress>)
        requires
            old(self).inv(old(mem).mem().len() as int),
        ensures
            final(self).inv(final(mem).mem().len() as int),
            final(self).spec_layout() == old(self).spec_layout(),
            forall|ad: u64, ct: u64|
                #[trigger] final(self).spec_can_free(ad, ct) == old(self).spec_can_free(ad, ct),
            final(mem).mem().len() == old(mem).mem().len(),
            final(mem).tlb_map() == old(mem).tlb_map(),
            final(mem).spec_table() == old(mem).spec_table(),
            final(self).spec_total_frames() == old(self).spec_total_frames(),
            match r {
                Some(p) => {
                    &&& Some(p.0) == old(self).spec_allocate(count.0)
                    &&& count.0 >= 1
                    &&& p.0 % PAGE_SIZE == 0
                    &&& p.0 + count.0 * PAGE_SIZE <= old(mem).mem().len()
                    &&& forall|j: int|
                        0 <= j < count.0 ==> old(self).spec_is_free(
                            #[trigger] ((p.0 + j * PAGE_SIZE) as u64),
                        ) && !final(self).spec_is_free((p.0 + j * PAGE_SIZE) as u64)
                    &&& forall|f: u64|
                        !(p.0 <= f < p.0 + count.0 * PAGE_SIZE) ==> final(self).spec_is_free(f)
                            == old(self).spec_is_free(f)
                    &&& final(self).spec_used_frames() == old(self).spec_used_frames() + count.0
                    &&& forall|j: int|
                        p.0 <= j < p.0 + count.0 * PAGE_SIZE ==> final(mem).mem()[j] == 0
                    &&& forall|j: int|
                        0 <= j < old(mem).mem().len() && !(p.0 <= j < p.0 + count.0 * PAGE_SIZE)
                            ==> final(mem).mem()[j] == old(mem).mem()[j]
                },
                None => {
                    &&& old(self).spec_allocate(count.0) is None
                    &&& *final(self) == *old(self)
                    &&& final(mem).mem() == old(mem).mem()
                },
            },
    ;

    /// Return a run of `count` frames starting at `address`; reports
    /// whether the allocator accepted the run.
    fn free(&mut self, mem: &mut Machine, address: PhysicalAddress, count: FrameCount) -> (r: bool)
        requires
            old(self).inv(old(mem).mem().len() as int),
        ensures
            final(self).inv(final(mem).mem().len() as int),
            final(self).spec_layout() == old(self).spec_layout(),
            forall|ad: u64, ct: u64|
                #[trigger] final(self).spec_can_free(ad, ct) == old(self).spec_can_free(ad, ct),
            final(mem).mem().len() == old(mem).mem().len(),
            final(mem).tlb_map() == old(mem).tlb_map(),
            final(mem).spec_table() == old(mem).spec_table(),
            final(self).spec_total_frames() == old(self).spec_total_frames(),
            r == old(self).spec_can_free(address.0, count.0),
            !r ==> *final(self) == *old(self) && final(mem).mem() == old(mem).mem(),
            r ==> {
                &&& forall|j: int|
                    0 <= j < count.0 ==> final(self).spec_is_free(
                        #[trigger] ((address.0 + j * PAGE_SIZE) as u64),
                    )
                &&& forall|f: u64|
                    !(address.0 <= f < address.0 + count.0 * PAGE_SIZE)
                        ==> final(self).spec_is_free(f) == old(self).spec_is_free(f)
                &&& (forall|j: int|
                    0 <= j < count.0 ==> !old(self).spec_is_free(
                        #[trigger] ((address.0 + j * PAGE_SIZE) as u64),
                    ))
                    ==> final(self).spec_used_frames() == old(self).spec_used_frames() - count.0
                &&& forall|j: int|
                    0 <= j < old(mem).mem().len() && !(address.0 <= j < address.0 + count.0
                        * PAGE_SIZE) ==> final(mem).mem()[j] == old(mem).mem()[j]
            },
    ;

    /// Allocate one frame.
    fn allocate_one(&mut self, mem: &mut Machine) -> (r: Option<PhysicalAddress>)
        requires
            old(self).inv(old(mem).mem().len() as int),
        ensures
            final(self).inv(final(mem).mem().len() as int),
            final(self).spec_layout() == old(self).spec_layout(),
            forall|ad: u64, ct: u64|
                #[trigger] final(self).spec_can_free(ad, ct) == old(self).spec_can_free(ad, ct),
            final(mem).mem().len() == old(mem).mem().len(),
            final(mem).tlb_map() == old(mem).tlb_map(),
            final(mem).spec_table() == old(mem).spec_table(),
            final(self).spec_total_frames() == old(self).spec_total_frames(),
            match r {
                Some(p) => {
                    &&& Some(p.0) == old(self).spec_allocate(1)
                    &&& p.0 % PAGE_SIZE == 0
                    &&& p.0 + PAGE_SIZE <= old(mem).mem().len()
                    &&& old(self).spec_is_free(p.0)
                    &&& !final(self).spec_is_free(p.0)
                    &&& forall|f: u64|
                        !(p.0 <= f < p.0 + PAGE_SIZE) ==> final(self).spec_is_free(f) == old(self).spec_is_free(f)
                    &&& final(self).spec_used_frames() == old(self).spec_used_frames() + 1
                    &&& forall|j: int| p.0 <= j < p.0 + PAGE_SIZE ==> final(mem).mem()[j] == 0
                    &&& forall|j: int|
                        0 <= j < old(mem).mem().len() && !(p.0 <= j < p.0 + PAGE_SIZE) ==> final(mem).mem()[j] == old(mem).mem()[j]
                },
                None => {
                    &&& old(self).spec_allocate(1) is None
                    &&& *final(self) == *old(self)
                    &&& final(mem).mem() == old(mem).mem()
                },
            },
    ;

    /// Return one frame.
    fn free_one(&mut self, mem: &mut Machine, address: PhysicalAddress) -> (r: bool)
        requires
            old(self).inv(old(mem).mem().len() as int),
        ensures
            final(self).inv(final(mem).mem().len() as int),
            final(self).spec_layout() == old(self).spec_layout(),
            forall|ad: u64, ct: u64|
                #[trigger] final(self).spec_can_free(ad, ct) == old(self).spec_can_free(ad, ct),
            final(mem).mem().len() == old(mem).mem().len(),
            final(mem).tlb_map() == old(mem).tlb_map(),
            final(mem).spec_table() == old(mem).spec_table(),
            final(self).spec_total_frames() == old(self).spec_total_frames(),
            r == old(self).spec_can_free(address.0, 1),
            !r ==> *final(self) == *old(self) && final(mem).mem() == old(mem).mem(),
            r ==> {
                &&& final(self).spec_is_free(address.0)
                &&& forall|f: u64|
                    !(address.0 <= f < address.0 + PAGE_SIZE) ==> final(self).spec_is_free(f)
                        == old(self).spec_is_free(f)
                &&& (!old(self).spec_is_free(address.0) ==> final(self).spec_used_frames() == old(self).spec_used_frames() - 1)
                &&& forall|j: int|
                    0 <= j < old(mem).mem().len() && !(address.0 <= j < address.0 + PAGE_SIZE)
                        ==> final(mem).mem()[j] == old(mem).mem()[j]
            },
    ;

    /// How many frames are in use and how many exist.
    fn usage(&self) -> (r: FrameUsage)
        requires
            self.spec_usage_wf(),
        ensures
            0 <= self.spec_used_frames() <= self.spec_total_frames() <= u64::MAX,
            r.spec_used() == self.spec_used_frames(),
            r.spec_total() == self.spec_total_frames(),
    ;
}

} // verus!
