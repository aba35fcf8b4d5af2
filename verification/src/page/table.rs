//! A typed view of one page table: its covered virtual base, the physical
//! frame holding it, and its level in the hierarchy.

use vstd::prelude::*;

verus! {

use core::marker::PhantomData;
use crate::PAGE_ENTRIES;
use crate::PAGE_ADDRESS_MASK;
use crate::PhysicalAddress;
use crate::TableKind;
use crate::VirtualAddress;
use crate::arch::Arch;
use crate::arch::phys_to_virt;
use crate::machine::Machine;
use crate::machine::lemma_child_slot;
use crate::machine::spec_entry_at;
use crate::machine::spec_table_in_bounds;
use crate::page::entry::PageEntry;

/// Bytes of the virtual address space one whole table covers at `level`.
pub open spec fn spec_table_span(level: u64) -> int {
    if level >= 3 {
        0x1000000000000
    } else if level == 2 {
        0x8000000000
    } else if level == 1 {
        0x40000000
    } else {
        0x200000
    }
}

/// The table spans as shift amounts.
proof fn lemma_table_spans()
    ensures
        (1u64 << 21) == 0x200000,
        (1u64 << 30) == 0x40000000,
        (1u64 << 39) == 0x8000000000,
        (1u64 << 48) == 0x1000000000000,
{
    assert((1u64 << 21) == 0x200000 && (1u64 << 30) == 0x40000000 && (1u64 << 39) == 0x8000000000
        && (1u64 << 48) == 0x1000000000000) by (bit_vector);
}

/// A handle on one table of the hierarchy.
pub struct PageTable<A: Arch> {
    base: VirtualAddress,
    phys: PhysicalAddress,
    level: u64,
    arch: PhantomData<A>,
}

impl<A: Arch> PageTable<A> {
    /// A well-placed handle: a level from leaf to root, its base aligned
    /// to the span the whole table covers.
    pub open spec fn wf(self) -> bool {
        &&& self.spec_level() <= 3
        &&& self.spec_base().0 as int % spec_table_span(self.spec_level()) == 0
    }

    pub closed spec fn spec_base(self) -> VirtualAddress {
        self.base
    }

    pub closed spec fn spec_phys(self) -> PhysicalAddress {
        self.phys
    }

    pub closed spec fn spec_level(self) -> u64 {
        self.level
    }

    pub fn new(base: VirtualAddress, phys: PhysicalAddress, level: u64) -> (r: Self)
        requires
            level <= 3,
            base.0 as int % spec_table_span(level) == 0,
        ensures
            r.spec_base() == base,
            r.spec_phys() == phys,
            r.spec_level() == level,
            r.wf(),
    {
        Self { base, phys, level, arch: PhantomData }
    }

    /// The root table of the machine's active hierarchy.
    pub fn top(mem: &Machine, table_kind: TableKind) -> (r: Self)
        ensures
            r.spec_base().0 == 0,
            r.spec_phys().0 == mem.spec_table(),
            r.spec_level() == 3,
            r.wf(),
    {
        Self::new(VirtualAddress::new(0), mem.get_table(), 3)
    }

    pub fn base(&self) -> (r: VirtualAddress)
        ensures
            r == self.spec_base(),
    {
        self.base
    }

    pub fn phys(&self) -> (r: PhysicalAddress)
        ensures
            r == self.spec_phys(),
    {
        self.phys
    }

    pub fn level(&self) -> (r: u64)
        ensures
            r == self.spec_level(),
    {
        self.level
    }

    /// Where the kernel's linear map places this table.
    pub fn virt(&self) -> (r: VirtualAddress)
        requires
            self.spec_phys().0 + A::spec_phys_offset() <= u64::MAX,
        ensures
            r.0 == self.spec_phys().0 + A::spec_phys_offset(),
    {
        phys_to_virt::<A>(self.phys)
    }

    /// The virtual base covered by child `i` of this table.
    pub fn entry_base(&self, i: u64) -> (r: Option<VirtualAddress>)
        requires
            self.spec_level() <= 3,
            self.spec_base().0 + ((((PAGE_ENTRIES - 1) as u64) << ((self.spec_level() * 9 + 12) as u64)))
                <= u64::MAX,
        ensures
            match r {
                Some(v) => i < PAGE_ENTRIES && v.0 == self.spec_base().0 + (i << ((
                self.spec_level() * 9 + 12) as u64)),
                None => i >= PAGE_ENTRIES,
            },
    {
        if i < PAGE_ENTRIES {
            let level_shift: u64 = self.level * 9 + 12;
            proof {
                assert(i << level_shift <= (((PAGE_ENTRIES - 1) as u64) << level_shift)) by (bit_vector)
                    requires
                        i < PAGE_ENTRIES,
                        PAGE_ENTRIES == 512,
                        level_shift <= 39,
                ;
            }
            Some(VirtualAddress::new(self.base.0 + (i << level_shift)))
        } else {
            None
        }
    }

    /// Where entry `i` of this table sits in the kernel's linear map.
    pub fn entry_virt(&self, i: u64) -> (r: Option<VirtualAddress>)
        requires
            self.spec_phys().0 + A::spec_phys_offset() + (PAGE_ENTRIES - 1) * 8 <= u64::MAX,
        ensures
            match r {
                Some(v) => i < PAGE_ENTRIES && v.0 == self.spec_phys().0 + A::spec_phys_offset()
                    + i * 8,
                None => i >= PAGE_ENTRIES,
            },
    {
        if i < PAGE_ENTRIES {
            Some(self.virt().add(i * 8))
        } else {
            None
        }
    }

    /// Read entry `i` from the table's frame.
    pub fn entry(&self, mem: &Machine, i: u64) -> (r: Option<PageEntry<A>>)
        requires
            spec_table_in_bounds(mem.mem(), self.spec_phys().0),
        ensures
            match r {
                Some(e) => i < PAGE_ENTRIES && e.spec_data() == spec_entry_at(
                    mem.mem(),
                    self.spec_phys().0,
                    i,
                ),
                None => i >= PAGE_ENTRIES,
            },
    {
        if i < PAGE_ENTRIES {
            proof {
                mem.lemma_mem_bounded();
            }
            Some(PageEntry::new(mem.read_phys_u64(self.phys.0 + i * 8)))
        } else {
            None
        }
    }

    /// Overwrite entry `i` in the table's frame.
    pub fn set_entry(&mut self, mem: &mut Machine, i: u64, entry: PageEntry<A>) -> (r: Option<()>)
        requires
            spec_table_in_bounds(old(mem).mem(), old(self).spec_phys().0),
        ensures
            *final(self) == *old(self),
            final(mem).mem().len() == old(mem).mem().len(),
            final(mem).tlb_map() == old(mem).tlb_map(),
            final(mem).spec_table() == old(mem).spec_table(),
            match r {
                Some(u) => {
                    &&& i < PAGE_ENTRIES
                    &&& spec_entry_at(final(mem).mem(), old(self).spec_phys().0, i)
                        == entry.spec_data()
                    &&& forall|j: int|
                        0 <= j < old(mem).mem().len() && !(old(self).spec_phys().0 + i * 8 <= j
                            < old(self).spec_phys().0 + i * 8 + 8) ==> final(mem).mem()[j] == old(
                            mem,
                        ).mem()[j]
                },
                None => i >= PAGE_ENTRIES && final(mem).mem() == old(mem).mem(),
            },
    {
        if i < PAGE_ENTRIES {
            proof {
                mem.lemma_mem_bounded();
            }
            mem.write_phys_u64(self.phys.0 + i * 8, entry.data());
            Some(())
        } else {
            None
        }
    }

    /// The index this table uses for `address`, if the canonicalized
    /// address falls inside the table's coverage.
    pub fn index_of(&self, address: VirtualAddress) -> (r: Option<u64>)
        requires
            self.spec_level() <= 3,
        ensures
            ({
                let masked = address.0 & PAGE_ADDRESS_MASK;
                let shift = (self.spec_level() * 9 + 12) as u64;
                match r {
                    Some(i) => self.spec_base().0 <= masked && masked - self.spec_base().0 <= (((
                    PAGE_ENTRIES << shift) - 1) as u64) && i == (masked >> shift) & 0x1FF,
                    None => !(self.spec_base().0 <= masked && masked - self.spec_base().0 <= (((
                    PAGE_ENTRIES << shift) - 1) as u64)),
                }
            }),
    {
        let masked: u64 = address.0 & PAGE_ADDRESS_MASK;
        let level_shift: u64 = self.level * 9 + 12;
        proof {
            assert((PAGE_ENTRIES << level_shift) >= 1 && (PAGE_ENTRIES << level_shift) <= (1u64
                << 48)) by (bit_vector)
                requires
                    PAGE_ENTRIES == 512,
                    level_shift <= 39,
            ;
        }
        let level_mask: u64 = (PAGE_ENTRIES << level_shift) - 1;
        if masked >= self.base.0 && masked - self.base.0 <= level_mask {
            Some((masked >> level_shift) & 0x1FF)
        } else {
            None
        }
    }

    /// The handle for the child table behind entry `i`, when this is not a
    /// leaf table and the entry is present.
    pub fn next(&self, mem: &Machine, i: u64) -> (r: Option<Self>)
        requires
            spec_table_in_bounds(mem.mem(), self.spec_phys().0),
            self.wf(),
            self.spec_base().0 + ((((PAGE_ENTRIES - 1) as u64) << ((self.spec_level() * 9 + 12) as u64)))
                <= u64::MAX,
        ensures
            ({
                let e = spec_entry_at(mem.mem(), self.spec_phys().0, i);
                match r {
                    Some(t) => {
                        &&& self.spec_level() > 0
                        &&& i < PAGE_ENTRIES
                        &&& e & A::spec_entry_flag_present() != 0
                        &&& t.spec_phys().0 == A::spec_entry_address(e)
                        &&& t.spec_level() == self.spec_level() - 1
                        &&& t.spec_base().0 == self.spec_base().0 + (i << ((self.spec_level() * 9
                            + 12) as u64))
                        &&& t.wf()
                    },
                    None => self.spec_level() == 0 || i >= PAGE_ENTRIES || e
                        & A::spec_entry_flag_present() == 0,
                }
            }),
    {
        if self.level == 0 {
            return None;
        }
        let entry = match self.entry(mem, i) {
            Some(e) => e,
            None => {
                return None;
            },
        };
        if !entry.present() {
            return None;
        }
        let base = match self.entry_base(i) {
            Some(b) => b,
            None => {
                return None;
            },
        };
        proof {
            lemma_table_spans();
            let sh = (self.spec_level() * 9 + 12) as u64;
            lemma_child_slot(self.spec_base().0, i, sh);
            assert(base.0 == (self.spec_base().0 | (i << sh)));
        }
        Some(Self::new(base, entry.address(), self.level - 1))
    }
}

} // verus!
