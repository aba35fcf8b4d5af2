//! The hosted machine emulator: a byte vector standing in for physical RAM,
//! a register holding the active root table, and a software TLB that is
//! rebuilt from the page tables on every invalidation, exactly as a real
//! MMU would re-walk them. It also defines the specification-level
//! page-table walk shared with the mapper.

use vstd::prelude::*;

verus! {

use std::collections::HashMap;
use crate::PAGE_SIZE;
use crate::MemoryArea;
use crate::PhysicalAddress;
use crate::VirtualAddress;
use crate::arch::Arch;
use crate::arch::emulate::EmulateArch;

broadcast use vstd::std_specs::hash::group_hash_axioms, vstd::std_specs::vec::group_vec_axioms;

/// The little-endian machine word stored at byte offset `a` of `mem`.
pub open spec fn spec_read_u64(mem: Seq<u8>, a: int) -> u64 {
    (mem[a] as u64) | ((mem[a + 1] as u64) << 8) | ((mem[a + 2] as u64) << 16)
        | ((mem[a + 3] as u64) << 24) | ((mem[a + 4] as u64) << 32)
        | ((mem[a + 5] as u64) << 40) | ((mem[a + 6] as u64) << 48)
        | ((mem[a + 7] as u64) << 56)
}

/// Index into the table serving `level` for the virtual address `v`.
pub open spec fn spec_page_index(v: u64, level: nat) -> u64 {
    (v >> ((12 + 9 * level) as u64)) & 0x1FF
}

/// The entry word at index `idx` of the table whose frame starts at `table`.
pub open spec fn spec_entry_at(mem: Seq<u8>, table: u64, idx: u64) -> u64 {
    spec_read_u64(mem, table + idx * 8)
}

/// Whether a frame starting at `table` lies fully inside the memory.
pub open spec fn spec_table_in_bounds(mem: Seq<u8>, table: u64) -> bool {
    table + 4096 <= mem.len()
}

/// The page-table walk: the physical frame of the table that serves `v` at
/// `level`, starting from the table `table` at `from`. Descends only
/// through present entries of in-bounds tables; `from == level` gives back
/// `table` itself.
pub open spec fn spec_table_for<A: Arch>(
    mem: Seq<u8>,
    table: u64,
    from: nat,
    level: nat,
    v: u64,
) -> Option<u64>
    decreases from,
{
    if !spec_table_in_bounds(mem, table) {
        None
    } else if from == level {
        Some(table)
    } else if from == 0 {
        None
    } else {
        let e = spec_entry_at(mem, table, spec_page_index(v, from));
        if e & A::spec_entry_flag_present() != 0 {
            spec_table_for::<A>(mem, A::spec_entry_address(e), (from - 1) as nat, level, v)
        } else {
            None
        }
    }
}

/// The leaf entry word a table at `from` holds for `v`, if the whole path
/// down to the leaf table is present; the leaf entry itself is returned
/// whether or not it is present.
pub open spec fn spec_leaf_cell_from<A: Arch>(mem: Seq<u8>, table: u64, from: nat, v: u64) -> Option<
    u64,
> {
    match spec_table_for::<A>(mem, table, from, 0, v) {
        Some(t0) => Some(spec_entry_at(mem, t0, spec_page_index(v, 0))),
        None => None,
    }
}

/// The leaf entry word the hierarchy rooted at `root` holds for `v`.
pub open spec fn spec_leaf_cell<A: Arch>(mem: Seq<u8>, root: u64, v: u64) -> Option<u64> {
    spec_leaf_cell_from::<A>(mem, root, 3, v)
}

/// The translation a table at `from` defines for the page of `v`: the leaf
/// entry word, provided every step of the walk, the leaf included, is
/// present.
pub open spec fn spec_walk_from<A: Arch>(mem: Seq<u8>, table: u64, from: nat, v: u64) -> Option<
    u64,
> {
    match spec_leaf_cell_from::<A>(mem, table, from, v) {
        Some(e) => if e & A::spec_entry_flag_present() != 0 {
            Some(e)
        } else {
            None
        },
        None => None,
    }
}

/// The translation the hierarchy rooted at `root` defines for the page of
/// `v`.
pub open spec fn spec_walk<A: Arch>(mem: Seq<u8>, root: u64, v: u64) -> Option<u64> {
    spec_walk_from::<A>(mem, root, 3, v)
}

/// The page base of `v` with its page-offset bits cleared and the high
/// (sign-extension) bits kept.
pub open spec fn spec_page_base(v: u64) -> u64 {
    v & 0xFFFF_FFFF_FFFF_F000
}

/// A canonical page base: page-aligned, with the top bits a sign extension
/// of bit 47.
pub open spec fn spec_canonical_page(v: u64) -> bool {
    &&& v & 0xFFF == 0
    &&& (v & 0xFFFF_8000_0000_0000 == 0 || v & 0xFFFF_8000_0000_0000 == 0xFFFF_8000_0000_0000)
}

/// The hosted machine: physical RAM as bytes, the active-table register,
/// and the software TLB mapping canonical page bases to leaf entry words.
pub struct Machine {
    memory: Vec<u8>,
    tlb: HashMap<u64, u64>,
    table_addr: u64,
}

impl Machine {
    /// The bytes of physical RAM.
    pub closed spec fn mem(self) -> Seq<u8> {
        self.memory@
    }

    /// The software TLB: canonical page base to leaf entry word.
    pub closed spec fn tlb_map(self) -> Map<u64, u64> {
        self.tlb@
    }

    pub closed spec fn spec_table(self) -> u64 {
        self.table_addr
    }

    /// The translation the TLB currently gives for `virt`: the physical
    /// byte and the flag bits of its page, if the page is cached.
    pub open spec fn spec_translate(self, virt: u64) -> Option<(u64, u64)> {
        let page = spec_page_base(virt);
        if self.tlb_map().contains_key(page) {
            let e = self.tlb_map()[page];
            Some(
                (
                    (EmulateArch::spec_entry_address(e) + (virt & 0xFFF)) as u64,
                    e & EmulateArch::spec_entry_flags_mask(),
                ),
            )
        } else {
            None
        }
    }

    /// A machine with `memory_size` bytes of zeroed RAM, an empty TLB and
    /// the active table at address zero.
    pub fn new(memory_size: usize) -> (r: Self)
        ensures
            r.mem() =~= Seq::new(memory_size as nat, |i: int| 0u8),
            r.tlb_map() =~= Map::<u64, u64>::empty(),
            r.spec_table() == 0,
    {
        Self { memory: vec![0u8; memory_size], tlb: HashMap::new(), table_addr: 0 }
    }

    /// Physical RAM is a real vector: its length is a machine word.
    pub proof fn lemma_mem_bounded(&self)
        ensures
            self.mem().len() <= usize::MAX,
    {
        vstd::std_specs::vec::axiom_spec_len(&self.memory);
    }

    pub fn memory_size(&self) -> (r: usize)
        ensures
            r == self.mem().len(),
    {
        self.memory.len()
    }

    /// The byte of physical RAM at `phys`.
    pub fn read_phys(&self, phys: u64) -> (r: u8)
        requires
            phys < self.mem().len(),
        ensures
            r == self.mem()[phys as int],
    {
        proof {
            vstd::std_specs::vec::axiom_spec_len(&self.memory);
        }
        self.memory[phys as usize]
    }

    /// Overwrite the byte of physical RAM at `phys`.
    pub fn write_phys(&mut self, phys: u64, value: u8)
        requires
            phys < old(self).mem().len(),
        ensures
            final(self).mem() =~= old(self).mem().update(phys as int, value),
            final(self).tlb_map() == old(self).tlb_map(),
            final(self).spec_table() == old(self).spec_table(),
    {
        proof {
            vstd::std_specs::vec::axiom_spec_len(&self.memory);
        }
        let i: usize = phys as usize;
        self.memory[i] = value;
    }

    /// The little-endian machine word of physical RAM at `phys`.
    pub fn read_phys_u64(&self, phys: u64) -> (r: u64)
        requires
            phys + 8 <= self.mem().len(),
        ensures
            r == spec_read_u64(self.mem(), phys as int),
    {
        proof {
            vstd::std_specs::vec::axiom_spec_len(&self.memory);
        }
        let a: usize = phys as usize;
        (self.memory[a] as u64) | ((self.memory[a + 1] as u64) << 8u64)
            | ((self.memory[a + 2] as u64) << 16u64) | ((self.memory[a + 3] as u64) << 24u64)
            | ((self.memory[a + 4] as u64) << 32u64) | ((self.memory[a + 5] as u64) << 40u64)
            | ((self.memory[a + 6] as u64) << 48u64) | ((self.memory[a + 7] as u64) << 56u64)
    }

    /// Store `value` as a little-endian machine word at `phys`.
    pub fn write_phys_u64(&mut self, phys: u64, value: u64)
        requires
            phys + 8 <= old(self).mem().len(),
        ensures
            final(self).mem().len() == old(self).mem().len(),
            spec_read_u64(final(self).mem(), phys as int) == value,
            forall|j: int|
                0 <= j < old(self).mem().len() && !(phys <= j < phys + 8) ==> final(self).mem()[j]
                    == old(self).mem()[j],
            final(self).tlb_map() == old(self).tlb_map(),
            final(self).spec_table() == old(self).spec_table(),
    {
        proof {
            vstd::std_specs::vec::axiom_spec_len(&self.memory);
        }
        let a: usize = phys as usize;
        self.memory[a] = (value & 0xFF) as u8;
        self.memory[a + 1] = ((value >> 8u64) & 0xFF) as u8;
        self.memory[a + 2] = ((value >> 16u64) & 0xFF) as u8;
        self.memory[a + 3] = ((value >> 24u64) & 0xFF) as u8;
        self.memory[a + 4] = ((value >> 32u64) & 0xFF) as u8;
        self.memory[a + 5] = ((value >> 40u64) & 0xFF) as u8;
        self.memory[a + 6] = ((value >> 48u64) & 0xFF) as u8;
        self.memory[a + 7] = ((value >> 56u64) & 0xFF) as u8;
        proof {
            lemma_u64_bytes_roundtrip(value);
        }
    }

    /// Zero the `count` bytes of physical RAM starting at `base`.
    pub fn zero_phys(&mut self, base: u64, count: u64)
        requires
            base + count <= old(self).mem().len(),
        ensures
            final(self).mem().len() == old(self).mem().len(),
            forall|j: int|
                base <= j < base + count ==> final(self).mem()[j] == 0u8,
            forall|j: int|
                0 <= j < old(self).mem().len() && !(base <= j < base + count)
                    ==> final(self).mem()[j] == old(self).mem()[j],
            final(self).tlb_map() == old(self).tlb_map(),
            final(self).spec_table() == old(self).spec_table(),
    {
        let mut k: u64 = 0;
        while k < count
            invariant
                k <= count,
                base + count <= self.mem().len(),
                self.mem().len() == old(self).mem().len(),
                forall|j: int| base <= j < base + k ==> self.mem()[j] == 0u8,
                forall|j: int|
                    0 <= j < old(self).mem().len() && !(base <= j < base + k) ==> self.mem()[j]
                        == old(self).mem()[j],
                self.tlb_map() == old(self).tlb_map(),
                self.spec_table() == old(self).spec_table(),
            decreases count - k,
        {
            proof {
                vstd::std_specs::vec::axiom_spec_len(&self.memory);
            }
            let i: usize = (base + k) as usize;
            self.memory[i] = 0;
            k = k + 1;
        }
    }

    /// The physical address held in the active-table register.
    pub fn get_table(&self) -> (r: PhysicalAddress)
        ensures
            r.0 == self.spec_table(),
    {
        PhysicalAddress::new(self.table_addr)
    }

    /// The translation of `virt` through the software TLB: the physical
    /// byte address and the page's flag bits, or nothing when the page is
    /// not cached.
    pub fn translate(&self, virt: VirtualAddress) -> (r: Option<(PhysicalAddress, u64)>)
        ensures
            match r {
                Some((p, f)) => self.spec_translate(virt.0) == Some((p.0, f)),
                None => self.spec_translate(virt.0) is None,
            },
    {
        let page: u64 = virt.0 & 0xFFFF_FFFF_FFFF_F000;
        match self.tlb.get(&page) {
            Some(e) => {
                let entry: u64 = *e;
                let addr: u64 = EmulateArch::entry_address(entry);
                proof {
                    EmulateArch::lemma_entry_address_bound(entry);
                    let vv: u64 = virt.0;
                    assert(vv & 0xFFF < 4096) by (bit_vector);
                }
                Some(
                    (
                        PhysicalAddress::new(addr + (virt.0 & 0xFFF)),
                        entry & EmulateArch::entry_flags_mask(),
                    ),
                )
            },
            None => None,
        }
    }

    /// Whether `virt` may be read through the current TLB state.
    pub open spec fn spec_can_read(self, virt: u64) -> bool {
        match self.spec_translate(virt) {
            Some((p, f)) => p < self.mem().len(),
            None => false,
        }
    }

    /// Whether `virt` may be written through the current TLB state: its
    /// page must additionally be mapped writable.
    pub open spec fn spec_can_write(self, virt: u64) -> bool {
        match self.spec_translate(virt) {
            Some((p, f)) => p < self.mem().len() && f
                & EmulateArch::spec_entry_flag_readwrite() != 0,
            None => false,
        }
    }

    /// Read one byte through the active translation.
    pub fn read(&self, virt: VirtualAddress) -> (r: u8)
        requires
            self.spec_can_read(virt.0),
        ensures
            r == self.mem()[self.spec_translate(virt.0).unwrap().0 as int],
    {
        let translation = self.translate(virt);
        let (phys, _flags) = translation.unwrap();
        self.read_phys(phys.0)
    }

    /// Write one byte through the active translation; the page must be
    /// mapped writable.
    pub fn write(&mut self, virt: VirtualAddress, value: u8)
        requires
            old(self).spec_can_write(virt.0),
        ensures
            final(self).mem() =~= old(self).mem().update(
                old(self).spec_translate(virt.0).unwrap().0 as int,
                value,
            ),
            final(self).tlb_map() == old(self).tlb_map(),
            final(self).spec_table() == old(self).spec_table(),
    {
        let translation = self.translate(virt);
        let (phys, _flags) = translation.unwrap();
        self.write_phys(phys.0, value);
    }

    /// What a freshly rebuilt TLB holds: exactly the canonical pages the
    /// active hierarchy maps, each with its leaf entry word.
    pub open spec fn spec_tlb_fresh(self) -> bool {
        &&& forall|k: u64| #![auto]
            self.tlb_map().contains_key(k) <==> (spec_canonical_page(k) && spec_walk::<
                EmulateArch,
            >(self.mem(), self.spec_table(), k) is Some)
        &&& forall|k: u64| #![auto]
            self.tlb_map().contains_key(k) ==> Some(self.tlb_map()[k]) == spec_walk::<EmulateArch>(
                self.mem(),
                self.spec_table(),
                k,
            )
    }

    /// Drop every cached translation and re-walk the whole hierarchy from
    /// the active root, as the architectural full-TLB flush does.
    pub fn invalidate_all(&mut self)
        ensures
            final(self).mem() == old(self).mem(),
            final(self).spec_table() == old(self).spec_table(),
            final(self).spec_tlb_fresh(),
    {
        proof {
            vstd::std_specs::vec::axiom_spec_len(&self.memory);
        }
        self.tlb.clear();
        let root = self.table_addr;
        let mem_len: usize = self.memory.len();
        if mem_len < 4096 || root > mem_len as u64 - 4096 {
            proof {
                assert(!spec_table_in_bounds(self.memory@, root));
            }
            return ;
        }
        let ghost m = self.memory@;
        let mut i4: u64 = 0;
        while i4 < 512
            invariant
                m == self.memory@,
                self.table_addr == root,
                spec_table_in_bounds(m, root),
                mem_len == m.len(),
                i4 <= 512,
                forall|k: u64| #![auto] self.tlb@.contains_key(k) ==> spec_canonical_page(k),
                forall|k: u64| #![auto]
                    spec_canonical_page(k) && (k >> 39) & 0x1FF < i4 ==> (self.tlb@.contains_key(k)
                        <==> spec_walk::<EmulateArch>(m, root, k) is Some),
                forall|k: u64| #![auto]
                    self.tlb@.contains_key(k) ==> Some(self.tlb@[k]) == spec_walk::<EmulateArch>(
                        m,
                        root,
                        k,
                    ),
                forall|k: u64| #![auto]
                    spec_canonical_page(k) && (k >> 39) & 0x1FF >= i4 ==> !self.tlb@.contains_key(
                        k,
                    ),
            decreases 512 - i4,
        {
            let ghost t0 = self.tlb@;
            let e3 = vec_read_u64(&self.memory, root + i4 * 8);
            let base4: u64 = if i4 >= 256 {
                (i4 << 39u64) | 0xFFFF_0000_0000_0000
            } else {
                i4 << 39u64
            };
            proof {
                lemma_root_slot(i4);
                assert(base4 == spec_root_base(i4));
            }
            if e3 & EmulateArch::entry_flag_present() != 0 {
                let child = EmulateArch::entry_address(e3);
                proof {
                    EmulateArch::lemma_entry_address_bound(e3);
                }
                if child + 4096 <= mem_len as u64 {
                    proof {
                        assert((512u64 << ((12 + 9 * 2) as u64)) == (1u64 << 39));
                        assert forall|k: u64|
                            base4 <= k < base4 + (512u64 << ((12 + 9 * 2) as u64)) implies !(
                        #[trigger] self.tlb@.contains_key(k)) by {
                            if self.tlb@.contains_key(k) {
                                assert(spec_canonical_page(k));
                                assert(k < base4 + (1u64 << 39));
                                lemma_root_member(i4, k);
                                assert((k >> 39) & 0x1FF >= i4);
                                assert(false);
                            }
                        }
                    }
                    rebuild_tables(&self.memory, &mut self.tlb, child, 2, base4);
                    proof {
                        assert((512u64 << ((12 + 9 * 2) as u64)) == (1u64 << 39));
                        assert forall|k: u64| #![auto]
                            base4 <= k < base4 + (1u64 << 39) implies spec_walk::<EmulateArch>(
                            m,
                            root,
                            k,
                        ) == spec_walk_from::<EmulateArch>(m, child, 2, k) by {
                            lemma_root_member(i4, k);
                            assert(spec_page_index(k, 3) == i4);
                            lemma_table_for_unfold::<EmulateArch>(m, root, 3, k);
                        }
                        // R1: within this root slot the TLB now mirrors the walk
                        assert forall|k: u64| #![auto]
                            spec_canonical_page(k) && (k >> 39) & 0x1FF == i4 implies (self
                            .tlb@.contains_key(k) <==> spec_walk::<EmulateArch>(
                            m,
                            root,
                            k,
                        ) is Some) by {
                            lemma_canonical_decompose(k);
                        }
                        // R2: every key added this round is a mapped page of this slot
                        assert forall|k: u64| #![auto]
                            self.tlb@.contains_key(k) && !t0.contains_key(k) implies
                            spec_canonical_page(k) && (k >> 39) & 0x1FF == i4 && Some(self.tlb@[k])
                            == spec_walk::<EmulateArch>(m, root, k) by {
                            lemma_root_member(i4, k);
                        }
                        // R3: everything outside this slot is untouched
                        assert forall|k: u64| #![auto]
                            !(spec_canonical_page(k) && (k >> 39) & 0x1FF == i4) implies self
                            .tlb@.contains_key(k) == t0.contains_key(k) && (t0.contains_key(k)
                            ==> self.tlb@[k] == t0[k]) by {
                            if base4 <= k < base4 + (1u64 << 39) {
                                lemma_root_member(i4, k);
                                assert(!t0.contains_key(k));
                                if self.tlb@.contains_key(k) {
                                    assert(spec_canonical_page(k) && (k >> 39) & 0x1FF == i4);
                                }
                            }
                        }
                    }
                } else {
                    proof {
                        assert forall|k: u64| #![auto]
                            spec_canonical_page(k) && (k >> 39) & 0x1FF == i4 implies spec_walk::<
                            EmulateArch,
                        >(m, root, k) is None by {
                            assert(spec_page_index(k, 3) == i4);
                            lemma_table_for_unfold::<EmulateArch>(m, root, 3, k);
                            assert(!spec_table_in_bounds(m, child));
                        }
                    }
                }
            } else {
                proof {
                    assert forall|k: u64| #![auto]
                        spec_canonical_page(k) && (k >> 39) & 0x1FF == i4 implies spec_walk::<
                        EmulateArch,
                    >(m, root, k) is None by {
                        assert(spec_page_index(k, 3) == i4);
                        lemma_table_for_unfold::<EmulateArch>(m, root, 3, k);
                    }
                }
            }
            proof {
                // the four invariants, stepped past this slot
                assert forall|k: u64| #![auto] self.tlb@.contains_key(k) implies
                    spec_canonical_page(k) by {}
                assert forall|k: u64| #![auto]
                    spec_canonical_page(k) && (k >> 39) & 0x1FF < i4 + 1 implies (self
                    .tlb@.contains_key(k) <==> spec_walk::<EmulateArch>(m, root, k) is Some) by {}
                assert forall|k: u64| #![auto]
                    self.tlb@.contains_key(k) implies Some(self.tlb@[k]) == spec_walk::<
                    EmulateArch,
                >(m, root, k) by {
                    if t0.contains_key(k) {
                        assert(spec_canonical_page(k));
                        assert((k >> 39) & 0x1FF != i4);
                    }
                }
                assert forall|k: u64| #![auto]
                    spec_canonical_page(k) && (k >> 39) & 0x1FF >= i4 + 1 implies !self
                    .tlb@.contains_key(k) by {}
            }
            i4 = i4 + 1;
        }
        proof {
            assert forall|k: u64| #![auto] spec_canonical_page(k) implies (k >> 39) & 0x1FF
                < 512 by {
                lemma_canonical_decompose(k);
            }
        }
    }

    /// Boot the emulator: 64 MiB of usable RAM above the first megabyte,
    /// the first two megabytes identity-mapped through a fresh 4-level
    /// hierarchy whose last root slot points back at the root itself, and
    /// that root installed as the active table.
    pub fn init() -> (r: (Machine, Vec<MemoryArea>))
        ensures
            r.0.mem().len() == 0x0410_0000,
            r.0.spec_table() == 0,
            r.0.spec_tlb_fresh(),
            spec_entry_at(r.0.mem(), 0, 511) == 0x3,
            forall|j: int| 0x4000 <= j < r.0.mem().len() ==> r.0.mem()[j] == 0u8,
            forall|v: u64| #![auto]
                spec_canonical_page(v) && v < 0x0020_0000 ==> r.0.tlb_map().contains_key(v)
                    && r.0.tlb_map()[v] == (v | 0x3),
            r.1@.len() == 1,
            r.1@[0].base.0 == 0x0010_0000,
            r.1@[0].size == 0x0400_0000,
    {
        let mut machine = Machine::new(0x0410_0000);
        let flags: u64 = 0x3;  // present, writable
        let pml4: u64 = 0;
        let pdp: u64 = 0x1000;
        let pd: u64 = 0x2000;
        let pt: u64 = 0x3000;
        machine.write_phys_u64(pml4, pdp | flags);
        // Recursive mapping: the root's last slot points at the root.
        machine.write_phys_u64(pml4 + 511 * 8, pml4 | flags);
        machine.write_phys_u64(pdp, pd | flags);
        machine.write_phys_u64(pd, pt | flags);
        proof {
            assert(0x1000u64 | 3 == 0x1003 && 0u64 | 3 == 3 && 0x2000u64 | 3 == 0x2003
                && 0x3000u64 | 3 == 0x3003) by (bit_vector);
        }
        let mut i: u64 = 0;
        while i < 512
            invariant
                i <= 512,
                pt == 0x3000,
                flags == 3,
                machine.mem().len() == 0x0410_0000,
                machine.spec_table() == 0,
                spec_entry_at(machine.mem(), 0, 0) == 0x1003,
                spec_entry_at(machine.mem(), 0, 511) == 0x3,
                spec_entry_at(machine.mem(), 0x1000, 0) == 0x2003,
                spec_entry_at(machine.mem(), 0x2000, 0) == 0x3003,
                forall|k: u64|
                    k < i ==> #[trigger] spec_entry_at(machine.mem(), 0x3000, k) == ((k
                        * 4096) as u64 | 3),
                forall|j: int| 0x4000 <= j < machine.mem().len() ==> machine.mem()[j] == 0u8,
            decreases 512 - i,
        {
            let entry: u64 = (i * 4096) | flags;
            let ghost m_pre = machine.mem();
            machine.write_phys_u64(pt + i * 8, entry);
            proof {
                assert(spec_entry_at(machine.mem(), 0x3000, i) == entry);
                assert forall|k: u64|
                    k < i implies #[trigger] spec_entry_at(machine.mem(), 0x3000, k) == ((k
                    * 4096) as u64 | 3) by {
                    assert(0x3000 + k * 8 + 8 <= 0x3000 + i * 8);
                    assert(spec_entry_at(machine.mem(), 0x3000, k) == spec_entry_at(
                        m_pre,
                        0x3000,
                        k,
                    ));
                }
            }
            i = i + 1;
        }
        machine.set_table(PhysicalAddress::new(0));
        proof {
            let m = machine.mem();
            lemma_boot_cells();
            assert forall|v: u64| #![auto]
                spec_canonical_page(v) && v < 0x0020_0000 implies machine.tlb_map().contains_key(
                v,
            ) && machine.tlb_map()[v] == (v | 0x3) by {
                lemma_boot_indices(v);
                assert(spec_page_index(v, 3) == 0 && spec_page_index(v, 2) == 0 && spec_page_index(
                    v,
                    1,
                ) == 0 && spec_page_index(v, 0) == v >> 12);
                // the four-level identity walk, step by step
                assert(spec_table_for::<EmulateArch>(m, 0, 3, 3, v) == Some(0u64));
                assert(spec_entry_at(m, 0, 0) == 0x1003);
                assert(EmulateArch::spec_entry_address(0x1003) == 0x1000);
                assert(spec_table_for::<EmulateArch>(m, 0, 3, 2, v) == spec_table_for::<
                    EmulateArch,
                >(m, 0x1000, 2, 2, v));
                assert(spec_table_for::<EmulateArch>(m, 0, 3, 2, v) == Some(0x1000u64));
                lemma_table_for_unfold::<EmulateArch>(m, 0x1000, 2, v);
                assert(EmulateArch::spec_entry_address(0x2003) == 0x2000);
                lemma_table_for_unfold::<EmulateArch>(m, 0x2000, 1, v);
                assert(EmulateArch::spec_entry_address(0x3003) == 0x3000);
                assert(spec_table_for::<EmulateArch>(m, 0, 3, 0, v) == Some(0x3000u64));
                assert(spec_entry_at(m, 0x3000, v >> 12) == (((v >> 12) * 4096) as u64 | 3));
                assert((((v >> 12) * 4096) as u64 | 3) == (v | 3));
                assert(spec_walk::<EmulateArch>(m, 0, v) == Some(v | 3));
            }
        }
        let mut areas: Vec<MemoryArea> = Vec::new();
        areas.push(MemoryArea { base: PhysicalAddress::new(0x0010_0000), size: 0x0400_0000 });
        (machine, areas)
    }

    /// Flush the translation of one address. The emulator has no
    /// single-page invalidation, so it falls back to the full flush.
    pub fn invalidate(&mut self, virt: VirtualAddress)
        ensures
            final(self).mem() == old(self).mem(),
            final(self).spec_table() == old(self).spec_table(),
            final(self).spec_tlb_fresh(),
    {
        self.invalidate_all();
    }

    /// Install a new active root table; the whole TLB is rebuilt from it.
    pub fn set_table(&mut self, address: PhysicalAddress)
        ensures
            final(self).mem() == old(self).mem(),
            final(self).spec_table() == address.0,
            final(self).spec_tlb_fresh(),
    {
        self.table_addr = address.0;
        self.invalidate_all();
    }
}

/// The boot identity tables, bit by bit: the concrete table-pointer words
/// are present and decode to the next table frame, and every identity page
/// below two megabytes keeps its indices and recomposes from its leaf
/// index.
proof fn lemma_boot_cells()
    ensures
        0x1003u64 & 0x1 == 1,
        0x1003u64 & 0x000F_FFFF_FFFF_F000 == 0x1000,
        0x2003u64 & 0x1 == 1,
        0x2003u64 & 0x000F_FFFF_FFFF_F000 == 0x2000,
        0x3003u64 & 0x1 == 1,
        0x3003u64 & 0x000F_FFFF_FFFF_F000 == 0x3000,
        0x3u64 & 0x1 == 1,
        3u64 & 0xFFF0_0000_0000_0FFF == 3,
        forall|p: u64| #[trigger] ((p | 3u64) & 0x1u64) == 1,
{
    assert(0x1003u64 & 0x1 == 1 && 0x1003u64 & 0x000F_FFFF_FFFF_F000 == 0x1000 && 0x2003u64 & 0x1
        == 1 && 0x2003u64 & 0x000F_FFFF_FFFF_F000 == 0x2000 && 0x3003u64 & 0x1 == 1 && 0x3003u64
        & 0x000F_FFFF_FFFF_F000 == 0x3000 && 0x3u64 & 0x1 == 1 && 3u64 & 0xFFF0_0000_0000_0FFF
        == 3 && (forall|p: u64| #[trigger] ((p | 3u64) & 0x1u64) == 1)) by (bit_vector);
}

/// An identity page below two megabytes: its non-leaf indices are zero and
/// it recomposes from its leaf index.
proof fn lemma_boot_indices(v: u64)
    requires
        v & 0xFFF == 0,
        v < 0x0020_0000,
    ensures
        (v >> 39) & 0x1FF == 0,
        (v >> 30) & 0x1FF == 0,
        (v >> 21) & 0x1FF == 0,
        (v >> 12) & 0x1FF == v >> 12,
        (v >> 12) < 512,
        (v >> 12) * 4096 == v,
{
    assert((v >> 39) & 0x1FF == 0 && (v >> 30) & 0x1FF == 0 && (v >> 21) & 0x1FF == 0 && (v >> 12)
        & 0x1FF == v >> 12 && (v >> 12) < 512 && (v >> 12) * 4096 == v) by (bit_vector)
        requires
            v & 0xFFF == 0,
            v < 0x0020_0000,
    ;
}

/// Observability is through the TLB alone: machines whose cached
/// translations agree translate every address alike, whatever their
/// tables hold.
pub proof fn lemma_translation_by_tlb(m1: Machine, m2: Machine, virt: u64)
    requires
        m2.tlb_map() == m1.tlb_map(),
    ensures
        m2.spec_translate(virt) == m1.spec_translate(virt),
{
}

/// The virtual base the root-table slot `i4` serves, sign-extended for the
/// high half.
pub open spec fn spec_root_base(i4: u64) -> u64 {
    if i4 >= 256 {
        (i4 << 39) | 0xFFFF_0000_0000_0000
    } else {
        i4 << 39
    }
}

/// Composing a child slot base: the or is a carry-free add, the slot index
/// can be read back, and alignment and the high half are preserved.
pub(crate) proof fn lemma_child_slot(base: u64, i: u64, sh: u64)
    requires
        sh == 12 || sh == 21 || sh == 30 || sh == 39,
        base % (1u64 << ((sh + 9) as u64)) == 0,
        i < 512,
    ensures
        (base | (i << sh)) == base + (i << sh),
        ((base | (i << sh)) >> sh) & 0x1FF == i,
        (base | (i << sh)) % (1u64 << sh) == 0,
        sh != 39 ==> ((base | (i << sh)) & 0xFFFF_8000_0000_0000) == (base
            & 0xFFFF_8000_0000_0000),
        ((base | (i << sh)) & 0xFFF) == 0,
        (((i + 1) as u64) << sh) == (i << sh) + (1u64 << sh),
        (((i + 1) as u64) << sh) <= 512u64 << sh,
        (sh == 21 || sh == 30) ==> (512u64 << ((sh - 9) as u64)) == (1u64 << sh),
        sh == 12 ==> (1u64 << sh) == 4096,
        0u64 << sh == 0,
{
    if sh == 12 {
        assert((base | (i << sh)) == base + (i << sh) && ((base | (i << sh)) >> sh) & 0x1FF == i
            && (base | (i << sh)) % (1u64 << sh) == 0 && ((base | (i << sh))
            & 0xFFFF_8000_0000_0000) == (base & 0xFFFF_8000_0000_0000) && ((base | (i << sh))
            & 0xFFF) == 0 && (((i + 1) as u64) << sh) == (i << sh) + (1u64 << sh) && (((i
            + 1) as u64) << sh) <= 512u64 << sh && (1u64 << sh) == 4096 && 0u64 << sh
            == 0) by (bit_vector)
            requires
                sh == 12,
                base % (1u64 << ((sh + 9) as u64)) == 0,
                i < 512,
        ;
    } else if sh == 21 {
        assert((base | (i << sh)) == base + (i << sh) && ((base | (i << sh)) >> sh) & 0x1FF == i
            && (base | (i << sh)) % (1u64 << sh) == 0 && ((base | (i << sh))
            & 0xFFFF_8000_0000_0000) == (base & 0xFFFF_8000_0000_0000) && ((base | (i << sh))
            & 0xFFF) == 0 && (((i + 1) as u64) << sh) == (i << sh) + (1u64 << sh) && (((i
            + 1) as u64) << sh) <= 512u64 << sh && (512u64 << ((sh - 9) as u64)) == (1u64 << sh)
            && 0u64 << sh == 0) by (bit_vector)
            requires
                sh == 21,
                base % (1u64 << ((sh + 9) as u64)) == 0,
                i < 512,
        ;
    } else if sh == 30 {
        assert((base | (i << sh)) == base + (i << sh) && ((base | (i << sh)) >> sh) & 0x1FF == i
            && (base | (i << sh)) % (1u64 << sh) == 0 && ((base | (i << sh))
            & 0xFFFF_8000_0000_0000) == (base & 0xFFFF_8000_0000_0000) && ((base | (i << sh))
            & 0xFFF) == 0 && (((i + 1) as u64) << sh) == (i << sh) + (1u64 << sh) && (((i
            + 1) as u64) << sh) <= 512u64 << sh && (512u64 << ((sh - 9) as u64)) == (1u64 << sh)
            && 0u64 << sh == 0) by (bit_vector)
            requires
                sh == 30,
                base % (1u64 << ((sh + 9) as u64)) == 0,
                i < 512,
        ;
    } else {
        assert((base | (i << sh)) == base + (i << sh) && ((base | (i << sh)) >> sh) & 0x1FF == i
            && (base | (i << sh)) % (1u64 << sh) == 0 && ((base | (i << sh)) & 0xFFF) == 0 && (((i
            + 1) as u64) << sh) == (i << sh) + (1u64 << sh) && (((i + 1) as u64) << sh) <= 512u64
            << sh && (512u64 << ((sh - 9) as u64)) == (1u64 << sh) && 0u64 << sh
            == 0) by (bit_vector)
            requires
                sh == 39,
                base % (1u64 << ((sh + 9) as u64)) == 0,
                i < 512,
        ;
    }
}

/// Two page-aligned addresses within one page are the same address.
proof fn lemma_page_unique(b: u64, k: u64)
    requires
        b & 0xFFF == 0,
        k & 0xFFF == 0,
        b <= k,
        k < b + 4096,
    ensures
        k == b,
{
    assert(k == b) by (bit_vector)
        requires
            b & 0xFFF == 0,
            k & 0xFFF == 0,
            b <= k,
            k < b + 4096,
    ;
}

/// Every address inside a child slot reads back the slot's index.
proof fn lemma_index_within(base: u64, i: u64, sh: u64, k: u64)
    requires
        sh == 12 || sh == 21 || sh == 30,
        base % (1u64 << ((sh + 9) as u64)) == 0,
        i < 512,
        base | (i << sh) <= k,
        k < (base | (i << sh)) + (1u64 << sh),
    ensures
        (k >> sh) & 0x1FF == i,
{
    assert((k >> sh) & 0x1FF == i) by (bit_vector)
        requires
            sh == 12 || sh == 21 || sh == 30,
            base % (1u64 << ((sh + 9) as u64)) == 0,
            i < 512,
            base | (i << sh) <= k,
            k < (base | (i << sh)) + (1u64 << sh),
    ;
}

/// The root slot base is aligned, canonical and reads back its index.
proof fn lemma_root_slot(i4: u64)
    requires
        i4 < 512,
    ensures
        spec_root_base(i4) % (1u64 << 39) == 0,
        (spec_root_base(i4) >> 39) & 0x1FF == i4,
        spec_root_base(i4) & 0xFFFF_8000_0000_0000 == 0 || spec_root_base(i4)
            & 0xFFFF_8000_0000_0000 == 0xFFFF_8000_0000_0000,
        spec_root_base(i4) & 0xFFF == 0,
        (512u64 << 30) == (1u64 << 39),
{
    if i4 >= 256 {
        let b = (i4 << 39) | 0xFFFF_0000_0000_0000u64;
        assert(b % (1u64 << 39) == 0 && (b >> 39) & 0x1FF == i4 && b & 0xFFFF_8000_0000_0000
            == 0xFFFF_8000_0000_0000 && b & 0xFFF == 0 && (512u64 << 30) == (1u64
            << 39)) by (bit_vector)
            requires
                256 <= i4 < 512,
                b == (i4 << 39) | 0xFFFF_0000_0000_0000u64,
        ;
    } else {
        let b = i4 << 39;
        assert(b % (1u64 << 39) == 0 && (b >> 39) & 0x1FF == i4 && b & 0xFFFF_8000_0000_0000 == 0
            && b & 0xFFF == 0 && (512u64 << 30) == (1u64 << 39)) by (bit_vector)
            requires
                i4 < 256,
                b == i4 << 39,
        ;
    }
}

/// Every address inside a root slot reads back the slot's index and keeps
/// the slot's high half.
proof fn lemma_root_member(i4: u64, k: u64)
    requires
        i4 < 512,
        spec_root_base(i4) <= k,
        k < spec_root_base(i4) + (1u64 << 39),
    ensures
        (k >> 39) & 0x1FF == i4,
        (k & 0xFFFF_8000_0000_0000) == (spec_root_base(i4) & 0xFFFF_8000_0000_0000),
{
    if i4 >= 256 {
        let b = (i4 << 39) | 0xFFFF_0000_0000_0000u64;
        assert((k >> 39) & 0x1FF == i4 && (k & 0xFFFF_8000_0000_0000) == (b
            & 0xFFFF_8000_0000_0000)) by (bit_vector)
            requires
                256 <= i4 < 512,
                b == (i4 << 39) | 0xFFFF_0000_0000_0000u64,
                b <= k,
                k < b + (1u64 << 39),
        ;
    } else {
        let b = i4 << 39;
        assert((k >> 39) & 0x1FF == i4 && (k & 0xFFFF_8000_0000_0000) == (b
            & 0xFFFF_8000_0000_0000)) by (bit_vector)
            requires
                i4 < 256,
                b == i4 << 39,
                b <= k,
                k < b + (1u64 << 39),
        ;
    }
}

/// Every canonical page lies in the slot of its root index.
proof fn lemma_canonical_decompose(k: u64)
    requires
        spec_canonical_page(k),
    ensures
        ((k >> 39) & 0x1FF) < 512,
        spec_root_base((k >> 39) & 0x1FF) <= k,
        k < spec_root_base((k >> 39) & 0x1FF) + (1u64 << 39),
        (k & 0x8000_0000_0000_0000 != 0) ==> ((k >> 39) & 0x1FF) >= 256,
        (k & 0x8000_0000_0000_0000 == 0) ==> ((k >> 39) & 0x1FF) < 256,
{
    if k & 0xFFFF_8000_0000_0000 == 0 {
        assert(((k >> 39) & 0x1FF) < 256 && (((k >> 39) & 0x1FF) << 39) <= k && k < (((k >> 39)
            & 0x1FF) << 39) + (1u64 << 39) && k & 0x8000_0000_0000_0000 == 0) by (bit_vector)
            requires
                k & 0xFFFF_8000_0000_0000 == 0,
        ;
    } else {
        assert(((k >> 39) & 0x1FF) >= 256 && ((((k >> 39) & 0x1FF) << 39)
            | 0xFFFF_0000_0000_0000u64) <= k && k < ((((k >> 39) & 0x1FF) << 39)
            | 0xFFFF_0000_0000_0000u64) + (1u64 << 39) && k & 0x8000_0000_0000_0000 != 0
            && ((k >> 39) & 0x1FF) < 512) by (bit_vector)
            requires
                k & 0xFFFF_8000_0000_0000 == 0xFFFF_8000_0000_0000,
        ;
    }
}

/// One step of the page-table walk, spelled out for callers.
pub(crate) proof fn lemma_table_for_unfold<A: Arch>(mem: Seq<u8>, table: u64, from: nat, v: u64)
    requires
        1 <= from,
    ensures
        spec_table_for::<A>(mem, table, from, 0, v) == (if !spec_table_in_bounds(mem, table) {
            None
        } else {
            let e = spec_entry_at(mem, table, spec_page_index(v, from));
            if e & A::spec_entry_flag_present() != 0 {
                spec_table_for::<A>(mem, A::spec_entry_address(e), (from - 1) as nat, 0, v)
            } else {
                None
            }
        }),
{
}

/// One step of the table walk towards an intermediate level: from a
/// non-leaf table the path descends through the present entry for `v`, or
/// ends.
pub(crate) proof fn lemma_table_for_step<A: Arch>(
    mem: Seq<u8>,
    table: u64,
    from: nat,
    level: nat,
    v: u64,
)
    requires
        level < from,
    ensures
        spec_table_for::<A>(mem, table, from, level, v) == (if !spec_table_in_bounds(mem, table) {
            None
        } else {
            let e = spec_entry_at(mem, table, spec_page_index(v, from));
            if e & A::spec_entry_flag_present() != 0 {
                spec_table_for::<A>(mem, A::spec_entry_address(e), (from - 1) as nat, level, v)
            } else {
                None
            }
        }),
{
}

/// The little-endian machine word at byte offset `phys` of `memory`.
fn vec_read_u64(memory: &Vec<u8>, phys: u64) -> (r: u64)
    requires
        phys + 8 <= memory@.len(),
    ensures
        r == spec_read_u64(memory@, phys as int),
{
    proof {
        vstd::std_specs::vec::axiom_spec_len(memory);
    }
    let a: usize = phys as usize;
    (memory[a] as u64) | ((memory[a + 1] as u64) << 8u64) | ((memory[a + 2] as u64) << 16u64) | ((
    memory[a + 3] as u64) << 24u64) | ((memory[a + 4] as u64) << 32u64) | ((memory[a
        + 5] as u64) << 40u64) | ((memory[a + 6] as u64) << 48u64) | ((memory[a + 7] as u64)
        << 56u64)
}

/// Rebuild the TLB entries of one page-table subtree: `table` serves the
/// virtual addresses `[base, base + 512 * 2^(12 + 9 * level))`, and every
/// page its hierarchy maps is cached under its canonical page base.
#[verifier::rlimit(100)]
fn rebuild_tables(memory: &Vec<u8>, tlb: &mut HashMap<u64, u64>, table: u64, level: u64, base: u64)
    requires
        spec_table_in_bounds(memory@, table),
        level <= 2,
        base % (1u64 << ((21 + 9 * level) as u64)) == 0,
        base & 0xFFFF_8000_0000_0000 == 0 || base & 0xFFFF_8000_0000_0000
            == 0xFFFF_8000_0000_0000,
        forall|k: u64|
            base <= k < base + (512u64 << ((12 + 9 * level) as u64)) ==> !(#[trigger] old(
                tlb,
            )@.contains_key(k)),
    ensures
        forall|k: u64| #![auto]
            base <= k < base + (512u64 << ((12 + 9 * level) as u64)) && k & 0xFFF == 0 ==> (
            final(tlb)@.contains_key(k) <==> spec_walk_from::<EmulateArch>(
                memory@,
                table,
                level as nat,
                k,
            ) is Some),
        forall|k: u64| #![auto]
            final(tlb)@.contains_key(k) && !old(tlb)@.contains_key(k) ==> base <= k < base + (512u64 << ((
            12 + 9 * level) as u64)) && k & 0xFFF == 0 && Some(final(tlb)@[k]) == spec_walk_from::<
                EmulateArch,
            >(memory@, table, level as nat, k),
        forall|k: u64|
            !(base <= k < base + (512u64 << ((12 + 9 * level) as u64))) ==> (
            #[trigger] final(tlb)@.contains_key(k)) == old(tlb)@.contains_key(k) && (old(
                tlb,
            )@.contains_key(k) ==> final(tlb)@[k] == old(tlb)@[k]),
    decreases level,
{
    let ghost m = memory@;
    let ghost t_entry = tlb@;
    let sh: u64 = 12 + 9 * level;
    let mem_len: usize = memory.len();
    proof {
        lemma_child_slot(base, 0, sh);
    }
    let mut i: u64 = 0;
    while i < 512
        invariant
            m == memory@,
            spec_table_in_bounds(m, table),
            level <= 2,
            sh == 12 + 9 * level,
            mem_len == m.len(),
            base % (1u64 << ((21 + 9 * level) as u64)) == 0,
            base & 0xFFFF_8000_0000_0000 == 0 || base & 0xFFFF_8000_0000_0000
                == 0xFFFF_8000_0000_0000,
            i <= 512,
            forall|k: u64| #![auto]
                base <= k < base + (i << sh) && k & 0xFFF == 0 ==> (tlb@.contains_key(k)
                    <==> spec_walk_from::<EmulateArch>(m, table, level as nat, k) is Some),
            forall|k: u64| #![auto]
                tlb@.contains_key(k) && !t_entry.contains_key(k) ==> base <= k < base + (i << sh)
                    && k & 0xFFF == 0 && Some(tlb@[k]) == spec_walk_from::<EmulateArch>(
                    m,
                    table,
                    level as nat,
                    k,
                ),
            forall|k: u64| #![auto]
                base + (i << sh) <= k < base + (512u64 << sh) ==> !tlb@.contains_key(k),
            forall|k: u64|
                !(base <= k < base + (512u64 << sh)) ==> (#[trigger] tlb@.contains_key(k))
                    == t_entry.contains_key(k) && (t_entry.contains_key(k) ==> tlb@[k]
                    == t_entry[k]),
        decreases 512 - i,
    {
        let ghost t0 = tlb@;
        proof {
            lemma_child_slot(base, i, sh);
        }
        let e = vec_read_u64(memory, table + i * 8);
        let slot_base = base | (i << sh);
        let ghost span: int = (1u64 << sh) as int;
        if e & EmulateArch::entry_flag_present() != 0 {
            if level == 0 {
                tlb.insert(slot_base, e);
                proof {
                    assert(spec_page_index(slot_base, 0) == i) by {
                        assert((12 + 9 * 0) as u64 == sh);
                    }
                    assert(spec_table_for::<EmulateArch>(m, table, 0, 0, slot_base) == Some(table));
                    assert(spec_walk_from::<EmulateArch>(m, table, level as nat, slot_base) == Some(
                        e,
                    ));
                    assert forall|k: u64| #![auto]
                        slot_base <= k < slot_base + span && k & 0xFFF == 0 implies (
                        tlb@.contains_key(k) <==> spec_walk_from::<EmulateArch>(
                            m,
                            table,
                            level as nat,
                            k,
                        ) is Some) by {
                        lemma_page_unique(slot_base, k);
                    }
                    assert forall|k: u64| #![auto]
                        tlb@.contains_key(k) && !t0.contains_key(k) implies slot_base <= k
                        < slot_base + span && k & 0xFFF == 0 && Some(tlb@[k]) == spec_walk_from::<
                        EmulateArch,
                    >(m, table, level as nat, k) by {
                        assert(k == slot_base);
                    }
                    assert forall|k: u64|
                        !(slot_base <= k < slot_base + span) implies (
                    #[trigger] tlb@.contains_key(k)) == t0.contains_key(k) && (t0.contains_key(k)
                        ==> tlb@[k] == t0[k]) by {
                        assert(k != slot_base);
                    }
                }
            } else {
                let child = EmulateArch::entry_address(e);
                proof {
                    EmulateArch::lemma_entry_address_bound(e);
                }
                if child + 4096 <= mem_len as u64 {
                    proof {
                        assert((512u64 << ((12 + 9 * (level - 1)) as u64)) == (1u64 << sh));
                        assert forall|k: u64|
                            slot_base <= k < slot_base + (512u64 << ((12 + 9 * (level
                                - 1)) as u64)) implies !(#[trigger] tlb@.contains_key(k)) by {}
                    }
                    rebuild_tables(memory, tlb, child, level - 1, slot_base);
                    proof {
                        assert((512u64 << ((12 + 9 * (level - 1)) as u64)) == (1u64 << sh));
                        assert forall|k: u64| #![auto]
                            slot_base <= k < slot_base + span implies spec_walk_from::<EmulateArch>(
                            m,
                            table,
                            level as nat,
                            k,
                        ) == spec_walk_from::<EmulateArch>(m, child, (level - 1) as nat, k) by {
                            lemma_index_within(base, i, sh, k);
                            assert(spec_page_index(k, level as nat) == i) by {
                                assert((12 + 9 * (level as nat)) as u64 == sh);
                            }
                            lemma_table_for_unfold::<EmulateArch>(m, table, level as nat, k);
                        }
                        assert forall|k: u64| #![auto]
                            slot_base <= k < slot_base + span && k & 0xFFF == 0 implies (
                            tlb@.contains_key(k) <==> spec_walk_from::<EmulateArch>(
                                m,
                                table,
                                level as nat,
                                k,
                            ) is Some) by {}
                        assert forall|k: u64| #![auto]
                            tlb@.contains_key(k) && !t0.contains_key(k) implies slot_base <= k
                            < slot_base + span && k & 0xFFF == 0 && Some(tlb@[k])
                            == spec_walk_from::<EmulateArch>(m, table, level as nat, k) by {}
                        assert forall|k: u64|
                            !(slot_base <= k < slot_base + span) implies (
                        #[trigger] tlb@.contains_key(k)) == t0.contains_key(k) && (
                        t0.contains_key(k) ==> tlb@[k] == t0[k]) by {
                            assert(!(slot_base <= k < slot_base + (512u64 << ((12 + 9 * (level
                                - 1)) as u64))));
                            let v_old = t0[k];
                            let v_new = tlb@[k];
                            assert(tlb@.contains_key(k) == t0.contains_key(k));
                            assert(t0.contains_key(k) ==> tlb@[k] == t0[k]);
                        }
                    }
                } else {
                    proof {
                        assert forall|k: u64| #![auto]
                            slot_base <= k < slot_base + span implies spec_walk_from::<EmulateArch>(
                            m,
                            table,
                            level as nat,
                            k,
                        ) is None by {
                            lemma_index_within(base, i, sh, k);
                            assert(spec_page_index(k, level as nat) == i) by {
                                assert((12 + 9 * (level as nat)) as u64 == sh);
                            }
                            lemma_table_for_unfold::<EmulateArch>(m, table, level as nat, k);
                            assert(!spec_table_in_bounds(m, child));
                        }
                        assert forall|k: u64| #![auto]
                            slot_base <= k < slot_base + span && k & 0xFFF == 0 implies (
                            tlb@.contains_key(k) <==> spec_walk_from::<EmulateArch>(
                                m,
                                table,
                                level as nat,
                                k,
                            ) is Some) by {}
                        assert forall|k: u64| #![auto]
                            tlb@.contains_key(k) && !t0.contains_key(k) implies slot_base <= k
                            < slot_base + span && k & 0xFFF == 0 && Some(tlb@[k])
                            == spec_walk_from::<EmulateArch>(m, table, level as nat, k) by {}
                        assert forall|k: u64|
                            !(slot_base <= k < slot_base + span) implies (
                        #[trigger] tlb@.contains_key(k)) == t0.contains_key(k) && (
                        t0.contains_key(k) ==> tlb@[k] == t0[k]) by {}
                    }
                }
            }
        } else {
            proof {
                assert forall|k: u64| #![auto]
                    slot_base <= k < slot_base + span implies spec_walk_from::<EmulateArch>(
                    m,
                    table,
                    level as nat,
                    k,
                ) is None by {
                    lemma_index_within(base, i, sh, k);
                    assert(spec_page_index(k, level as nat) == i) by {
                        assert((12 + 9 * (level as nat)) as u64 == sh);
                    }
                    if level == 0 {
                        assert(spec_table_for::<EmulateArch>(m, table, 0, 0, k) == Some(table));
                    } else {
                        lemma_table_for_unfold::<EmulateArch>(m, table, level as nat, k);
                    }
                }
                assert forall|k: u64| #![auto]
                    slot_base <= k < slot_base + span && k & 0xFFF == 0 implies (
                    tlb@.contains_key(k) <==> spec_walk_from::<EmulateArch>(
                        m,
                        table,
                        level as nat,
                        k,
                    ) is Some) by {}
                assert forall|k: u64| #![auto]
                    tlb@.contains_key(k) && !t0.contains_key(k) implies slot_base <= k < slot_base
                    + span && k & 0xFFF == 0 && Some(tlb@[k]) == spec_walk_from::<EmulateArch>(
                        m,
                        table,
                        level as nat,
                        k,
                    ) by {}
                assert forall|k: u64|
                    !(slot_base <= k < slot_base + span) implies (
                #[trigger] tlb@.contains_key(k)) == t0.contains_key(k) && (t0.contains_key(k)
                    ==> tlb@[k] == t0[k]) by {}
            }
        }
        proof {
            let hi: int = base + (((((i + 1) as u64)) << sh) as int);
            assert(slot_base == base + (i << sh));
            assert(slot_base + span == hi);
            assert forall|k: u64| #![auto]
                base <= k < hi && k & 0xFFF == 0 implies (tlb@.contains_key(k)
                    <==> spec_walk_from::<EmulateArch>(m, table, level as nat, k) is Some) by {
                let v_old = t0[k];
                let v_new = tlb@[k];
                if k < slot_base {
                    assert(!(slot_base <= k < slot_base + span));
                    assert(tlb@.contains_key(k) == t0.contains_key(k));
                    assert(base <= k < base + (i << sh));
                } else {
                    assert(slot_base <= k < slot_base + span);
                }
            }
            assert forall|k: u64| #![auto]
                tlb@.contains_key(k) && !t_entry.contains_key(k) implies base <= k < hi && k
                    & 0xFFF == 0 && Some(tlb@[k]) == spec_walk_from::<EmulateArch>(
                    m,
                    table,
                    level as nat,
                    k,
                ) by {
                let v_old = t0[k];
                let v_new = tlb@[k];
                if !(slot_base <= k < slot_base + span) {
                    assert(tlb@.contains_key(k) == t0.contains_key(k) && tlb@[k] == t0[k]);
                    assert(t0.contains_key(k));
                    assert(base <= k < base + (i << sh));
                }
            }
            assert forall|k: u64| #![auto]
                hi <= k < base + (512u64 << sh) implies !tlb@.contains_key(k) by {
                let v_old = t0[k];
                let v_new = tlb@[k];
                assert(!(slot_base <= k < slot_base + span));
                assert(base + (i << sh) <= k < base + (512u64 << sh));
                assert(!t0.contains_key(k));
                assert(tlb@.contains_key(k) == t0.contains_key(k));
            }
            assert forall|k: u64|
                !(base <= k < base + (512u64 << sh)) implies (#[trigger] tlb@.contains_key(k))
                    == t_entry.contains_key(k) && (t_entry.contains_key(k) ==> tlb@[k]
                    == t_entry[k]) by {
                let v_old = t0[k];
                let v_new = tlb@[k];
                let v_fn_entry = t_entry[k];
                assert(!(slot_base <= k < slot_base + span));
                assert(tlb@.contains_key(k) == t0.contains_key(k) && (t0.contains_key(k)
                    ==> tlb@[k] == t0[k]));
            }
        }
        i = i + 1;
    }
    proof {
        assert(t_entry == old(tlb)@);
    }
}


/// Zero and-masks to zero.
pub(crate) proof fn lemma_and_zero(x: u64)
    ensures
        0u64 & x == 0,
{
    assert(0u64 & x == 0) by (bit_vector);
}

/// The or of two values inside a mask stays inside the mask.
pub(crate) proof fn lemma_or_in_mask(a: u64, b: u64, m: u64)
    requires
        a & m == a,
        b & m == b,
    ensures
        (a | b) & m == (a | b),
{
    assert((a | b) & m == (a | b)) by (bit_vector)
        requires
            a & m == a,
            b & m == b,
    ;
}

/// A word assembled from zero bytes is zero.
pub(crate) proof fn lemma_zero_word()
    ensures
        (0u8 as u64) | ((0u8 as u64) << 8) | ((0u8 as u64) << 16) | ((0u8 as u64) << 24) | ((
        0u8 as u64) << 32) | ((0u8 as u64) << 40) | ((0u8 as u64) << 48) | ((0u8 as u64) << 56)
            == 0,
{
    assert((0u8 as u64) | ((0u8 as u64) << 8) | ((0u8 as u64) << 16) | ((0u8 as u64) << 24) | ((
    0u8 as u64) << 32) | ((0u8 as u64) << 40) | ((0u8 as u64) << 48) | ((0u8 as u64) << 56)
        == 0) by (bit_vector);
}

/// Every entry of an all-zero frame reads as zero.
pub(crate) proof fn lemma_zeroed_entries(mem: Seq<u8>, t: u64)
    requires
        t + 4096 <= mem.len(),
        forall|j: int| t <= j < t + 4096 ==> mem[j] == 0,
    ensures
        forall|i: u64| i < 512 ==> #[trigger] spec_entry_at(mem, t, i) == 0,
{
    assert forall|i: u64| i < 512 implies #[trigger] spec_entry_at(mem, t, i) == 0 by {
        let a = t + i * 8;
        assert(t <= a && a + 8 <= t + 4096);
        assert(mem[a] == 0 && mem[a + 1] == 0 && mem[a + 2] == 0 && mem[a + 3] == 0 && mem[a + 4]
            == 0 && mem[a + 5] == 0 && mem[a + 6] == 0 && mem[a + 7] == 0);
        lemma_zero_word();
    }
}


/// A nine-bit page-table index is below 512.
pub(crate) proof fn lemma_page_index_bound(v: u64, sh: u64)
    ensures
        ((v >> sh) & 0x1FF) < 512,
{
    assert(((v >> sh) & 0x1FF) < 512) by (bit_vector);
}

/// Reassembling the bytes of a little-endian store gives back the word.
proof fn lemma_u64_bytes_roundtrip(v: u64)
    ensures
        ((v & 0xFF) as u8 as u64) | ((((v >> 8u64) & 0xFF) as u8 as u64) << 8u64) | ((((v
            >> 16u64) & 0xFF) as u8 as u64) << 16u64) | ((((v >> 24u64) & 0xFF) as u8 as u64)
            << 24u64) | ((((v >> 32u64) & 0xFF) as u8 as u64) << 32u64) | ((((v >> 40u64)
            & 0xFF) as u8 as u64) << 40u64) | ((((v >> 48u64) & 0xFF) as u8 as u64) << 48u64) | ((((
        v >> 56u64) & 0xFF) as u8 as u64) << 56u64) == v,
{
    assert(((v & 0xFF) as u8 as u64) | ((((v >> 8u64) & 0xFF) as u8 as u64) << 8u64) | ((((v
        >> 16u64) & 0xFF) as u8 as u64) << 16u64) | ((((v >> 24u64) & 0xFF) as u8 as u64)
        << 24u64) | ((((v >> 32u64) & 0xFF) as u8 as u64) << 32u64) | ((((v >> 40u64)
        & 0xFF) as u8 as u64) << 40u64) | ((((v >> 48u64) & 0xFF) as u8 as u64) << 48u64) | ((((v
        >> 56u64) & 0xFF) as u8 as u64) << 56u64) == v) by (bit_vector);
}

} // verus!
