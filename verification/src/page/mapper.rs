//! The page mapper: map, remap, unmap and translate operations over one
//! page-table hierarchy, lazily allocating intermediate tables from a
//! supplied frame allocator. Beside the root it carries a ghost map of all
//! table frames and their levels; that the frames are distinct and never
//! handed back to the allocator is what makes a write to one table leave
//! every other table intact.

use vstd::prelude::*;

verus! {

use core::marker::PhantomData;
use crate::PAGE_SIZE;
use crate::PhysicalAddress;
use crate::TableKind;
use crate::VirtualAddress;
use crate::allocator::FrameAllocator;
use crate::arch::Arch;
use crate::arch::phys_to_virt;
use crate::machine::Machine;
use crate::machine::lemma_and_zero;
use crate::machine::lemma_or_in_mask;
use crate::machine::lemma_page_index_bound;
use crate::machine::lemma_table_for_step;
use crate::machine::lemma_table_for_unfold;
use crate::machine::lemma_zeroed_entries;
use crate::machine::spec_entry_at;
use crate::machine::spec_leaf_cell;
use crate::machine::spec_page_index;
use crate::machine::spec_table_for;
use crate::machine::spec_table_in_bounds;
use crate::machine::spec_walk;
use crate::page::entry::PageEntry;
use crate::page::flags::PageFlags;
use crate::page::flush::PageFlush;
use crate::page::table::PageTable;

/// A table map describes a well-formed hierarchy in `mem`: every table
/// frame is page-aligned, in bounds and at a level from leaf to root, and
/// every present entry of a non-leaf table points at a table one level
/// down.
pub open spec fn spec_hierarchy_wf<A: Arch>(mem: Seq<u8>, tabs: Map<u64, int>) -> bool {
    &&& forall|t: u64|
        #[trigger] tabs.contains_key(t) ==> t % PAGE_SIZE == 0 && t + PAGE_SIZE <= mem.len() && 0
            <= tabs[t] <= 3
    &&& forall|t: u64, i: u64|
        tabs.contains_key(t) && tabs[t] > 0 && i < 512 && (#[trigger] spec_entry_at(mem, t, i))
            & A::spec_entry_flag_present() != 0 ==> tabs.contains_key(
            A::spec_entry_address(spec_entry_at(mem, t, i)),
        ) && tabs[A::spec_entry_address(spec_entry_at(mem, t, i))] == tabs[t] - 1
}

/// Two distinct page-aligned frames occupy disjoint byte ranges.
proof fn lemma_pages_disjoint(t: u64, u: u64)
    requires
        t % PAGE_SIZE == 0,
        u % PAGE_SIZE == 0,
        t != u,
    ensures
        t + PAGE_SIZE <= u || u + PAGE_SIZE <= t,
{
    assert(t + PAGE_SIZE <= u || u + PAGE_SIZE <= t) by (nonlinear_arith)
        requires
            t % PAGE_SIZE == 0,
            u % PAGE_SIZE == 0,
            t != u,
            PAGE_SIZE == 4096,
    ;
}

/// A write confined to `[wlo, whi)` leaves every entry of a table that
/// lies wholly outside that window as it was.
proof fn lemma_entries_preserved(m1: Seq<u8>, m2: Seq<u8>, t: u64, wlo: int, whi: int)
    requires
        m2.len() == m1.len(),
        t + 4096 <= m1.len(),
        forall|b: int| 0 <= b < m1.len() && !(wlo <= b < whi) ==> m2[b] == m1[b],
        whi <= t || t + 4096 <= wlo,
    ensures
        forall|j: u64| j < 512 ==> #[trigger] spec_entry_at(m2, t, j) == spec_entry_at(m1, t, j),
{
    assert forall|j: u64| j < 512 implies #[trigger] spec_entry_at(m2, t, j) == spec_entry_at(
        m1,
        t,
        j,
    ) by {
        assert(t + j * 8 + 8 <= t + 4096);
    }
}

/// A write confined to slot `i` of a table leaves its other entries as
/// they were.
proof fn lemma_entries_preserved_except(m1: Seq<u8>, m2: Seq<u8>, t: u64, i: u64)
    requires
        m2.len() == m1.len(),
        t + 4096 <= m1.len(),
        i < 512,
        forall|b: int| 0 <= b < m1.len() && !(t + i * 8 <= b < t + i * 8 + 8) ==> m2[b] == m1[b],
    ensures
        forall|j: u64|
            j < 512 && j != i ==> #[trigger] spec_entry_at(m2, t, j) == spec_entry_at(m1, t, j),
{
    assert forall|j: u64| j < 512 && j != i implies #[trigger] spec_entry_at(m2, t, j)
        == spec_entry_at(m1, t, j) by {
        assert(t + j * 8 + 8 <= t + i * 8 || t + i * 8 + 8 <= t + j * 8);
    }
}

/// A masked value keeps only the bits of a submask of the mask.
proof fn lemma_and_submask(x: u64, m: u64, p: u64)
    requires
        p & m == p,
    ensures
        (x & m) & p == x & p,
{
    assert((x & m) & p == x & p) by (bit_vector)
        requires
            p & m == p,
    ;
}

/// Or-ing more bits on keeps the bits already present.
proof fn lemma_or_keeps_bits(a: u64, b: u64, p: u64)
    requires
        b & p == p,
    ensures
        (a | b) & p == p,
        (b | a) & p == p,
{
    assert((a | b) & p == p && (b | a) & p == p) by (bit_vector)
        requires
            b & p == p,
    ;
}

/// The hierarchy is unchanged by a write that stays out of every non-leaf
/// table frame: the cells of leaf tables carry no structure.
proof fn lemma_hierarchy_preserved<A: Arch>(
    m1: Seq<u8>,
    m2: Seq<u8>,
    tabs: Map<u64, int>,
    wlo: int,
    whi: int,
)
    requires
        spec_hierarchy_wf::<A>(m1, tabs),
        m2.len() == m1.len(),
        forall|j: int| 0 <= j < m1.len() && !(wlo <= j < whi) ==> m2[j] == m1[j],
        forall|t: u64|
            #[trigger] tabs.contains_key(t) && tabs[t] > 0 ==> (t + PAGE_SIZE <= wlo || whi <= t),
    ensures
        spec_hierarchy_wf::<A>(m2, tabs),
{
    assert forall|t: u64, i: u64|
        tabs.contains_key(t) && tabs[t] > 0 && i < 512 && (#[trigger] spec_entry_at(m2, t, i))
            & A::spec_entry_flag_present() != 0 implies tabs.contains_key(
        A::spec_entry_address(spec_entry_at(m2, t, i)),
    ) && tabs[A::spec_entry_address(spec_entry_at(m2, t, i))] == tabs[t] - 1 by {
        assert(t + i * 8 + 8 <= t + PAGE_SIZE);
        assert(spec_entry_at(m2, t, i) == spec_entry_at(m1, t, i));
    }
}

/// A partial walk is unchanged by a write that stays out of every table
/// frame above the walk's target level.
proof fn lemma_table_for_preserved<A: Arch>(
    m1: Seq<u8>,
    m2: Seq<u8>,
    tabs: Map<u64, int>,
    table: u64,
    from: nat,
    level: nat,
    v: u64,
    wlo: int,
    whi: int,
)
    requires
        spec_hierarchy_wf::<A>(m1, tabs),
        m2.len() == m1.len(),
        forall|j: int| 0 <= j < m1.len() && !(wlo <= j < whi) ==> m2[j] == m1[j],
        forall|t: u64|
            #[trigger] tabs.contains_key(t) && tabs[t] > level ==> (t + PAGE_SIZE <= wlo || whi
                <= t),
        tabs.contains_key(table),
        tabs[table] == from,
        level <= from <= 3,
    ensures
        spec_table_for::<A>(m2, table, from, level, v) == spec_table_for::<A>(
            m1,
            table,
            from,
            level,
            v,
        ),
    decreases from - level,
{
    if from == level {
    } else {
        let i = spec_page_index(v, from);
        lemma_page_index_bound(v, ((12 + 9 * from) as u64));
        assert(table + i * 8 + 8 <= table + PAGE_SIZE);
        assert(spec_entry_at(m2, table, i) == spec_entry_at(m1, table, i));
        let e = spec_entry_at(m1, table, i);
        lemma_table_for_unfold::<A>(m1, table, from, v);
        lemma_table_for_unfold::<A>(m2, table, from, v);
        if e & A::spec_entry_flag_present() != 0 {
            let c = A::spec_entry_address(e);
            assert(tabs.contains_key(c) && tabs[c] == from - 1);
            lemma_table_for_preserved::<A>(m1, m2, tabs, c, (from - 1) as nat, level, v, wlo, whi);
        }
    }
}

/// Every table a walk reaches belongs to the hierarchy, at its level.
proof fn lemma_walk_frames_in_tabs<A: Arch>(
    mem: Seq<u8>,
    tabs: Map<u64, int>,
    table: u64,
    from: nat,
    level: nat,
    v: u64,
)
    requires
        spec_hierarchy_wf::<A>(mem, tabs),
        tabs.contains_key(table),
        tabs[table] == from,
        level <= from <= 3,
        spec_table_for::<A>(mem, table, from, level, v) is Some,
    ensures
        tabs.contains_key(spec_table_for::<A>(mem, table, from, level, v).unwrap()),
        tabs[spec_table_for::<A>(mem, table, from, level, v).unwrap()] == level,
    decreases from - level,
{
    if from != level {
        let i = spec_page_index(v, from);
        lemma_page_index_bound(v, ((12 + 9 * from) as u64));
        lemma_table_for_unfold::<A>(mem, table, from, v);
        let e = spec_entry_at(mem, table, i);
        assert(e & A::spec_entry_flag_present() != 0);
        let c = A::spec_entry_address(e);
        assert(tabs.contains_key(c) && tabs[c] == from - 1);
        lemma_walk_frames_in_tabs::<A>(mem, tabs, c, (from - 1) as nat, level, v);
    }
}

/// Extending a partial walk by one level: the table at `level - 1` is the
/// present child of the table at `level`, when there is one.
pub(crate) proof fn lemma_table_for_split<A: Arch>(
    mem: Seq<u8>,
    table: u64,
    from: nat,
    level: nat,
    v: u64,
)
    requires
        1 <= level <= from,
    ensures
        spec_table_for::<A>(mem, table, from, (level - 1) as nat, v) == (match spec_table_for::<A>(
            mem,
            table,
            from,
            level,
            v,
        ) {
            Some(t) => {
                let e = spec_entry_at(mem, t, spec_page_index(v, level));
                if e & A::spec_entry_flag_present() != 0 && spec_table_in_bounds(
                    mem,
                    A::spec_entry_address(e),
                ) {
                    Some(A::spec_entry_address(e))
                } else {
                    None
                }
            },
            None => None,
        }),
    decreases from - level,
{
    if from == level {
        lemma_table_for_unfold::<A>(mem, table, from, v);
        if spec_table_in_bounds(mem, table) {
            let e = spec_entry_at(mem, table, spec_page_index(v, from));
            if e & A::spec_entry_flag_present() != 0 {
                assert(spec_table_for::<A>(mem, table, from, (from - 1) as nat, v)
                    == spec_table_for::<A>(
                    mem,
                    A::spec_entry_address(e),
                    (from - 1) as nat,
                    (from - 1) as nat,
                    v,
                ));
            }
        }
    } else {
        lemma_table_for_unfold::<A>(mem, table, from, v);
        if spec_table_in_bounds(mem, table) {
            let e = spec_entry_at(mem, table, spec_page_index(v, from));
            if e & A::spec_entry_flag_present() != 0 {
                lemma_table_for_split::<A>(
                    mem,
                    A::spec_entry_address(e),
                    (from - 1) as nat,
                    level,
                    v,
                );
            }
        }
    }
}

/// The flag bits the mapper gives a freshly installed table pointer:
/// writable, the architecture's table defaults, and user access iff the
/// address lies in the user half.
pub open spec fn spec_table_entry_flags<A: Arch>(virt: VirtualAddress) -> u64 {
    if virt.spec_kind() == TableKind::User {
        (A::spec_entry_flag_readwrite() | A::spec_entry_flag_default_table())
            | A::spec_entry_flag_user()
    } else {
        A::spec_entry_flag_readwrite() | A::spec_entry_flag_default_table()
    }
}

/// The entry the mapper freshly installed at `level` of `virt`'s path in
/// table `t`: present, with exactly the table-pointer flag bits.
pub open spec fn spec_fresh_table_entry<A: Arch>(
    mem: Seq<u8>,
    t: u64,
    level: nat,
    virt: VirtualAddress,
) -> bool {
    &&& spec_entry_at(mem, t, spec_page_index(virt.0, level)) & A::spec_entry_flags_mask()
        == spec_table_entry_flags::<A>(virt)
    &&& spec_entry_at(mem, t, spec_page_index(virt.0, level)) & A::spec_entry_flag_present() != 0
}

/// Whether slot `i` is the only present entry of the table at `t`.
pub open spec fn spec_only_entry<A: Arch>(mem: Seq<u8>, t: u64, i: u64) -> bool {
    forall|j: u64|
        j < 512 && j != i ==> (#[trigger] spec_entry_at(mem, t, j)) & A::spec_entry_flag_present()
            == 0
}

/// How many of `virt`'s intermediate tables the unmapping reclaims: the
/// leaf table if clearing the leaf leaves it empty, then each parent in
/// turn while it held nothing else.
pub open spec fn spec_tables_reclaimed<A: Arch>(mem: Seq<u8>, root: u64, virt: u64) -> int {
    let t0 = spec_table_for::<A>(mem, root, 3, 0, virt).unwrap();
    let t1 = spec_table_for::<A>(mem, root, 3, 1, virt).unwrap();
    let t2 = spec_table_for::<A>(mem, root, 3, 2, virt).unwrap();
    let lone0 = spec_only_entry::<A>(mem, t0, spec_page_index(virt, 0));
    let lone1 = lone0 && spec_only_entry::<A>(mem, t1, spec_page_index(virt, 1));
    let lone2 = lone1 && spec_only_entry::<A>(mem, t2, spec_page_index(virt, 2));
    if lone2 {
        3
    } else if lone1 {
        2
    } else if lone0 {
        1
    } else {
        0
    }
}

/// A page-table hierarchy together with the allocator its intermediate
/// tables come from.
pub struct PageMapper<A: Arch, F: FrameAllocator> {
    table_addr: PhysicalAddress,
    allocator: F,
    tables: Ghost<Map<u64, int>>,
    arch: PhantomData<A>,
}

impl<A: Arch, F: FrameAllocator> PageMapper<A, F> {
    pub closed spec fn spec_table_addr(self) -> u64 {
        self.table_addr.0
    }

    pub closed spec fn spec_allocator(self) -> F {
        self.allocator
    }

    /// The ghost bookkeeping: the physical frame of every table of this
    /// hierarchy, each with its level.
    pub closed spec fn spec_tables(self) -> Map<u64, int> {
        self.tables@
    }

    /// The allocator is consistent and every frame address fits the
    /// architecture's entry address field.
    pub open spec fn wf_alloc(self, m: Machine) -> bool {
        &&& self.spec_allocator().inv(m.mem().len() as int)
        &&& m.mem().len() <= 0x0010_0000_0000_0000
    }

    /// The ghost table map describes the hierarchy in memory: the root is
    /// a level-3 table, every table frame is page-aligned, in bounds and
    /// not free, and every present entry of a non-leaf table points at a
    /// table one level down.
    pub open spec fn wf_tables(self, m: Machine) -> bool {
        let tabs = self.spec_tables();
        &&& tabs.contains_key(self.spec_table_addr())
        &&& tabs[self.spec_table_addr()] == 3
        &&& spec_hierarchy_wf::<A>(m.mem(), tabs)
        &&& forall|t: u64|
            #[trigger] tabs.contains_key(t) ==> !self.spec_allocator().spec_is_free(t)
    }

    /// Wrap an existing root table. Nothing is known about the hierarchy
    /// behind it.
    pub fn new(table_addr: PhysicalAddress, allocator: F) -> (r: Self)
        ensures
            r.spec_table_addr() == table_addr.0,
            r.spec_allocator() == allocator,
    {
        Self {
            table_addr,
            allocator,
            tables: Ghost(Map::empty().insert(table_addr.0, 3)),
            arch: PhantomData,
        }
    }

    /// Allocate a zeroed root frame and wrap it: a fresh, empty hierarchy
    /// that maps nothing.
    pub fn create(mem: &mut Machine, allocator: F) -> (r: Option<Self>)
        requires
            allocator.inv(old(mem).mem().len() as int),
            old(mem).mem().len() <= 0x0010_0000_0000_0000,
        ensures
            final(mem).mem().len() == old(mem).mem().len(),
            final(mem).tlb_map() == old(mem).tlb_map(),
            final(mem).spec_table() == old(mem).spec_table(),
            match r {
                Some(mapper) => {
                    &&& mapper.wf_alloc(*final(mem))
                    &&& mapper.wf_tables(*final(mem))
                    &&& Some(mapper.spec_table_addr()) == allocator.spec_allocate(1)
                    &&& mapper.spec_allocator().spec_used_frames() == allocator.spec_used_frames()
                        + 1
                    &&& !mapper.spec_allocator().spec_is_free(mapper.spec_table_addr())
                    &&& forall|f: u64|
                        !(mapper.spec_table_addr() <= f < mapper.spec_table_addr() + PAGE_SIZE)
                            ==> #[trigger] mapper.spec_allocator().spec_is_free(f)
                                == allocator.spec_is_free(f)
                    &&& forall|v: u64|
                        #[trigger] spec_walk::<A>(
                            final(mem).mem(),
                            mapper.spec_table_addr(),
                            v,
                        ) is None
                },
                None => final(mem).mem() == old(mem).mem() && allocator.spec_allocate(1) is None,
            },
    {
        let mut allocator = allocator;
        let root = match allocator.allocate_one(mem) {
            Some(p) => p,
            None => {
                return None;
            },
        };
        let mapper = Self {
            table_addr: root,
            allocator,
            tables: Ghost(Map::<u64, int>::empty().insert(root.0, 3)),
            arch: PhantomData,
        };
        proof {
            lemma_zeroed_entries(mem.mem(), root.0);
            lemma_and_zero(A::spec_entry_flag_present());
            assert forall|t: u64, i: u64|
                mapper.spec_tables().contains_key(t) && mapper.spec_tables()[t] > 0 && i < 512
                    && (#[trigger] spec_entry_at(mem.mem(), t, i)) & A::spec_entry_flag_present()
                    != 0 implies false by {
                assert(t == root.0);
                assert(spec_entry_at(mem.mem(), t, i) == 0);
            }
            assert forall|v: u64|
                #[trigger] spec_walk::<A>(mem.mem(), root.0, v) is None by {
                lemma_and_zero(A::spec_entry_flag_present());
                lemma_table_for_unfold::<A>(mem.mem(), root.0, 3, v);
                lemma_page_index_bound(v, (12 + 9 * 3) as u64);
                assert(spec_entry_at(mem.mem(), root.0, spec_page_index(v, 3)) == 0);
            }
        }
        Some(mapper)
    }

    /// Wrap the machine's currently active root table.
    pub fn current(mem: &Machine, allocator: F) -> (r: Self)
        ensures
            r.spec_table_addr() == mem.spec_table(),
            r.spec_allocator() == allocator,
    {
        Self::new(mem.get_table(), allocator)
    }

    /// The root table handle.
    pub fn table(&self) -> (r: PageTable<A>)
        ensures
            r.spec_base().0 == 0,
            r.spec_phys().0 == self.spec_table_addr(),
            r.spec_level() == 3,
    {
        PageTable::new(VirtualAddress::new(0), self.table_addr, 3)
    }

    /// Whether this hierarchy is the machine's active one.
    pub fn is_current(&self, mem: &Machine) -> (r: bool)
        ensures
            r == (self.spec_table_addr() == mem.spec_table()),
    {
        self.table_addr.0 == mem.get_table().0
    }

    /// Install this hierarchy as the machine's active one; the whole TLB
    /// is rebuilt from it.
    pub fn make_current(&self, mem: &mut Machine)
        ensures
            final(mem).mem() == old(mem).mem(),
            final(mem).spec_table() == self.spec_table_addr(),
            final(mem).spec_tlb_fresh(),
    {
        mem.set_table(self.table_addr);
    }

    /// Walk the hierarchy for `virt`: the mapped frame address and the
    /// leaf entry's flag bits, exactly when every level of the walk is
    /// present.
    pub fn translate(&self, mem: &Machine, virt: VirtualAddress) -> (r: Option<
        (PhysicalAddress, PageFlags<A>),
    >)
        ensures
            match spec_walk::<A>(mem.mem(), self.spec_table_addr(), virt.0) {
                Some(e) => r matches Some((p, f)) && p.0 == A::spec_entry_address(e)
                    && f.spec_data() == e & A::spec_entry_flags_mask(),
                None => r is None,
            },
    {
        let ghost m = mem.mem();
        let root = self.table_addr.0;
        let mem_size: usize = mem.memory_size();
        if mem_size < 4096 || root > mem_size as u64 - 4096 {
            return None;
        }
        let i3: u64 = (virt.0 >> 39u64) & 0x1FF;
        proof {
            lemma_page_index_bound(virt.0, 39u64);
        }
        let e3 = mem.read_phys_u64(root + i3 * 8);
        proof {
            assert(spec_page_index(virt.0, 3) == i3);
            lemma_table_for_unfold::<A>(m, root, 3, virt.0);
        }
        if e3 & A::entry_flag_present() == 0 {
            return None;
        }
        let t2 = A::entry_address(e3);
        proof {
            A::lemma_entry_address_bound(e3);
        }
        if t2 > mem_size as u64 - 4096 {
            return None;
        }
        let i2: u64 = (virt.0 >> 30u64) & 0x1FF;
        proof {
            lemma_page_index_bound(virt.0, 30u64);
        }
        let e2 = mem.read_phys_u64(t2 + i2 * 8);
        proof {
            assert(spec_page_index(virt.0, 2) == i2);
            lemma_table_for_unfold::<A>(m, t2, 2, virt.0);
        }
        if e2 & A::entry_flag_present() == 0 {
            return None;
        }
        let t1 = A::entry_address(e2);
        proof {
            A::lemma_entry_address_bound(e2);
        }
        if t1 > mem_size as u64 - 4096 {
            return None;
        }
        let i1: u64 = (virt.0 >> 21u64) & 0x1FF;
        proof {
            lemma_page_index_bound(virt.0, 21u64);
        }
        let e1 = mem.read_phys_u64(t1 + i1 * 8);
        proof {
            assert(spec_page_index(virt.0, 1) == i1);
            lemma_table_for_unfold::<A>(m, t1, 1, virt.0);
        }
        if e1 & A::entry_flag_present() == 0 {
            return None;
        }
        let t0 = A::entry_address(e1);
        proof {
            A::lemma_entry_address_bound(e1);
        }
        if t0 > mem_size as u64 - 4096 {
            return None;
        }
        let i0: u64 = (virt.0 >> 12u64) & 0x1FF;
        proof {
            lemma_page_index_bound(virt.0, 12u64);
        }
        let e0 = mem.read_phys_u64(t0 + i0 * 8);
        proof {
            assert(spec_page_index(virt.0, 0) == i0);
            assert(spec_table_for::<A>(m, t0, 0, 0, virt.0) == Some(t0));
        }
        if e0 & A::entry_flag_present() == 0 {
            return None;
        }
        Some((PhysicalAddress::new(A::entry_address(e0)), PageFlags::from_data(e0
            & A::entry_flags_mask())))
    }

    /// One level of the mapping descent: follow the present entry of
    /// `table` for `virt`, or install a fresh zeroed table there.
    fn descend_or_create(
        &mut self,
        mem: &mut Machine,
        table: u64,
        level: u64,
        virt: VirtualAddress,
        Ghost(strong): Ghost<bool>,
    ) -> (r: Option<u64>)
        requires
            old(self).wf_alloc(*old(mem)),
            1 <= level <= 3,
            table + 4096 <= old(mem).mem().len(),
            strong ==> old(self).wf_tables(*old(mem)),
            strong ==> old(self).spec_tables().contains_key(table) && old(self).spec_tables()[table] == level && spec_table_for::<A>(
                old(mem).mem(),
                old(self).spec_table_addr(),
                3,
                level as nat,
                virt.0,
            ) == Some(table),
        ensures
            final(self).wf_alloc(*final(mem)),
            final(mem).mem().len() == old(mem).mem().len(),
            final(mem).tlb_map() == old(mem).tlb_map(),
            final(mem).spec_table() == old(mem).spec_table(),
            final(self).spec_table_addr() == old(self).spec_table_addr(),
            strong ==> final(self).wf_tables(*final(mem)),
            strong ==> forall|x: u64|
                #[trigger] old(self).spec_tables().contains_key(x) ==> final(self).spec_tables().contains_key(x) && final(self).spec_tables()[x] == old(self).spec_tables()[x],
            forall|f: u64|
                f % PAGE_SIZE == 0 && #[trigger] final(self).spec_allocator().spec_is_free(f)
                    ==> old(self).spec_allocator().spec_is_free(f),
            match r {
                Some(child) => {
                    &&& child + 4096 <= final(mem).mem().len()
                    &&& (spec_entry_at(old(mem).mem(), table, spec_page_index(virt.0, level as nat))
                        & A::spec_entry_flag_present() != 0 ==> *final(self) == *old(self)
                        && *final(mem) == *old(mem))
                    &&& (strong ==> final(self).spec_tables().contains_key(
                        child,
                    ) && final(self).spec_tables()[child] == level - 1 && spec_table_for::<A>(
                        final(mem).mem(),
                        old(self).spec_table_addr(),
                        3,
                        (level - 1) as nat,
                        virt.0,
                    ) == Some(child))
                    &&& (strong && spec_entry_at(
                        old(mem).mem(),
                        table,
                        spec_page_index(virt.0, level as nat),
                    ) & A::spec_entry_flag_present() == 0 ==> spec_walk::<A>(
                        final(mem).mem(),
                        old(self).spec_table_addr(),
                        virt.0,
                    ) is None && spec_entry_at(
                        final(mem).mem(),
                        table,
                        spec_page_index(virt.0, level as nat),
                    ) == A::spec_entry_encode(child, spec_table_entry_flags::<A>(virt))
                        && spec_entry_at(
                        final(mem).mem(),
                        table,
                        spec_page_index(virt.0, level as nat),
                    ) & A::spec_entry_flags_mask() == spec_table_entry_flags::<A>(virt)
                        && spec_entry_at(
                        final(mem).mem(),
                        table,
                        spec_page_index(virt.0, level as nat),
                    ) & A::spec_entry_flag_present() != 0)
                },
                None => {
                    &&& *final(self) == *old(self)
                    &&& final(mem).mem() == old(mem).mem()
                    &&& (strong ==> final(self).spec_allocator().spec_allocate(1) is None)
                },
            },
            strong && spec_entry_at(old(mem).mem(), table, spec_page_index(virt.0, level as nat))
                & A::spec_entry_flag_present() != 0 ==> r is Some,
            strong ==> forall|x: u64, j: int|
                #![trigger old(self).spec_tables().contains_key(x), final(mem).mem()[j]]
                old(self).spec_tables().contains_key(x) && x != table && x <= j < x + PAGE_SIZE
                    ==> final(mem).mem()[j] == old(mem).mem()[j],
    {
        let ghost m0 = *mem;
        let ghost self0 = *self;
        let ghost tabs0 = self.tables@;
        let ghost root = self.table_addr.0;
        let ghost lvl = level as nat;
        let shift: u64 = 12 + 9 * level;
        let i: u64 = (virt.0 >> shift) & 0x1FF;
        proof {
            lemma_page_index_bound(virt.0, shift);
            assert(spec_page_index(virt.0, lvl) == i);
        }
        let e = mem.read_phys_u64(table + i * 8);
        if e & A::entry_flag_present() != 0 {
            let child = A::entry_address(e);
            proof {
                A::lemma_entry_address_bound(e);
                if strong {
                    assert(e == spec_entry_at(mem.mem(), table, i));
                    assert(self.spec_tables().contains_key(child) && self.spec_tables()[child]
                        == level - 1);
                    lemma_table_for_split::<A>(mem.mem(), root, 3, lvl, virt.0);
                }
            }
            let mem_size: usize = mem.memory_size();
            if mem_size >= 4096 && child <= mem_size as u64 - 4096 {
                return Some(child);
            } else {
                proof {
                    if strong {
                        // a table frame always lies inside the memory
                        assert(child + 4096 <= mem.mem().len());
                        assert(false);
                    }
                }
                return None;
            }
        }
        let fresh = match self.allocator.allocate_one(mem) {
            Some(p) => p.0,
            None => {
                return None;
            },
        };
        let ghost m1 = *mem;
        proof {
            A::lemma_frame_ok_from_bounds(fresh);
        }
        let tflags: u64 = if virt.kind() == TableKind::User {
            (A::entry_flag_readwrite() | A::entry_flag_default_table()) | A::entry_flag_user()
        } else {
            A::entry_flag_readwrite() | A::entry_flag_default_table()
        };
        proof {
            A::lemma_constants();
            lemma_or_in_mask(
                A::spec_entry_flag_readwrite(),
                A::spec_entry_flag_default_table(),
                A::spec_entry_flags_mask(),
            );
            lemma_or_in_mask(
                A::spec_entry_flag_readwrite() | A::spec_entry_flag_default_table(),
                A::spec_entry_flag_user(),
                A::spec_entry_flags_mask(),
            );
            lemma_or_keeps_bits(
                A::spec_entry_flag_readwrite(),
                A::spec_entry_flag_default_table(),
                A::spec_entry_flag_present(),
            );
            lemma_or_keeps_bits(
                A::spec_entry_flag_user(),
                A::spec_entry_flag_readwrite() | A::spec_entry_flag_default_table(),
                A::spec_entry_flag_present(),
            );
            assert(tflags & A::spec_entry_flags_mask() == tflags);
            assert(tflags & A::spec_entry_flag_present() == A::spec_entry_flag_present());
            A::lemma_entry_encode(fresh, tflags);
        }
        let pe = A::entry_encode(fresh, tflags);
        mem.write_phys_u64(table + i * 8, pe);
        proof {
            lemma_and_submask(pe, A::spec_entry_flags_mask(), A::spec_entry_flag_present());
            assert(pe & A::spec_entry_flag_present() == A::spec_entry_flag_present());
            self.tables@ = tabs0.insert(fresh, (lvl - 1) as int);
            assert forall|f: u64|
                f % PAGE_SIZE == 0 && #[trigger] self.spec_allocator().spec_is_free(f) implies
                self0.spec_allocator().spec_is_free(f) by {
                if fresh <= f < fresh + PAGE_SIZE {
                    assert(f == fresh) by (nonlinear_arith)
                        requires
                            f % PAGE_SIZE == 0,
                            fresh % PAGE_SIZE == 0,
                            fresh <= f < fresh + PAGE_SIZE,
                            PAGE_SIZE == 4096,
                    ;
                }
            }
            if strong {
                assert(!tabs0.contains_key(fresh));
                // the fresh frame's zeroing left every old table untouched
                assert forall|t: u64, j: u64|
                    tabs0.contains_key(t) && j < 512 implies #[trigger] spec_entry_at(
                    m1.mem(),
                    t,
                    j,
                ) == spec_entry_at(m0.mem(), t, j) by {
                    lemma_pages_disjoint(t, fresh);
                    assert(t + j * 8 + 8 <= t + PAGE_SIZE);
                }
                assert(spec_hierarchy_wf::<A>(m1.mem(), tabs0));
                // the parent-entry write stayed inside `table`'s frame
                assert forall|t: u64, j: u64|
                    tabs0.contains_key(t) && t != table && j < 512 implies #[trigger] spec_entry_at(
                    mem.mem(),
                    t,
                    j,
                ) == spec_entry_at(m1.mem(), t, j) by {
                    lemma_pages_disjoint(t, table);
                    assert(t + j * 8 + 8 <= t + PAGE_SIZE);
                }
                assert forall|j: u64| j < 512 && j != i implies #[trigger] spec_entry_at(
                    mem.mem(),
                    table,
                    j,
                ) == spec_entry_at(m1.mem(), table, j) by {
                    assert(table + j * 8 + 8 <= table + PAGE_SIZE);
                }
                assert(spec_entry_at(mem.mem(), table, i) == pe);
                // the new hierarchy is well formed
                assert forall|t: u64, j: u64|
                    self.tables@.contains_key(t) && self.tables@[t] > 0 && j < 512 && (
                #[trigger] spec_entry_at(mem.mem(), t, j)) & A::spec_entry_flag_present() != 0
                    implies self.tables@.contains_key(
                    A::spec_entry_address(spec_entry_at(mem.mem(), t, j)),
                ) && self.tables@[A::spec_entry_address(spec_entry_at(mem.mem(), t, j))]
                    == self.tables@[t] - 1 by {
                    if t == fresh {
                        lemma_zeroed_entries(m1.mem(), fresh);
                        lemma_pages_disjoint(fresh, table);
                        assert(fresh + j * 8 + 8 <= fresh + PAGE_SIZE);
                        assert(spec_entry_at(mem.mem(), fresh, j) == spec_entry_at(
                            m1.mem(),
                            fresh,
                            j,
                        ));
                        lemma_and_zero(A::spec_entry_flag_present());
                        assert(false);
                    } else if t == table && j == i {
                        assert(A::spec_entry_address(pe) == fresh);
                    } else {
                        assert(spec_entry_at(mem.mem(), t, j) == spec_entry_at(m0.mem(), t, j));
                    }
                }
                // frames of the new map are not free
                assert forall|t: u64| #[trigger] self.tables@.contains_key(t) implies !self
                    .spec_allocator().spec_is_free(t) by {
                    if t != fresh {
                        lemma_pages_disjoint(t, fresh);
                    }
                }
                assert(self.wf_tables(*mem));
                // the walk now reaches the fresh table
                lemma_table_for_preserved::<A>(
                    m0.mem(),
                    m1.mem(),
                    tabs0,
                    root,
                    3,
                    lvl,
                    virt.0,
                    fresh as int,
                    fresh + PAGE_SIZE,
                );
                assert forall|t: u64|
                    #[trigger] tabs0.contains_key(t) && tabs0[t] > lvl implies (t + PAGE_SIZE
                    <= table + i * 8 || table + i * 8 + 8 <= t) by {
                    if t != table {
                        lemma_pages_disjoint(t, table);
                    }
                }
                lemma_table_for_preserved::<A>(
                    m1.mem(),
                    mem.mem(),
                    tabs0,
                    root,
                    3,
                    lvl,
                    virt.0,
                    table + i * 8,
                    table + i * 8 + 8,
                );
                assert(spec_table_for::<A>(mem.mem(), root, 3, lvl, virt.0) == Some(table));
                lemma_table_for_split::<A>(mem.mem(), root, 3, lvl, virt.0);
                assert(spec_table_for::<A>(mem.mem(), root, 3, (lvl - 1) as nat, virt.0) == Some(
                    fresh,
                ));
                // every old table other than the one written keeps its bytes
                assert forall|x: u64, j: int|
                    #![trigger tabs0.contains_key(x), mem.mem()[j]]
                    tabs0.contains_key(x) && x != table && x <= j < x + PAGE_SIZE implies mem.mem()[j]
                    == m0.mem()[j] by {
                    lemma_pages_disjoint(x, fresh);
                    lemma_pages_disjoint(x, table);
                    assert(table + i * 8 + 8 <= table + PAGE_SIZE);
                }
                // the fresh table is empty, so nothing below it is mapped
                assert forall|j: u64| j < 512 implies #[trigger] spec_entry_at(
                    mem.mem(),
                    fresh,
                    j,
                ) == 0 by {
                    lemma_zeroed_entries(m1.mem(), fresh);
                    lemma_pages_disjoint(fresh, table);
                    assert(fresh + j * 8 + 8 <= fresh + PAGE_SIZE);
                    assert(spec_entry_at(mem.mem(), fresh, j) == spec_entry_at(m1.mem(), fresh, j));
                }
                lemma_and_zero(A::spec_entry_flag_present());
                if lvl - 1 >= 1 {
                    lemma_page_index_bound(virt.0, ((12 + 9 * (lvl - 1)) as u64));
                    assert(spec_entry_at(mem.mem(), fresh, spec_page_index(virt.0, (lvl - 1) as nat))
                        == 0);
                    lemma_table_for_split::<A>(mem.mem(), root, 3, (lvl - 1) as nat, virt.0);
                    assert(spec_table_for::<A>(mem.mem(), root, 3, (lvl - 2) as nat, virt.0)
                        is None);
                    if lvl - 2 >= 1 {
                        lemma_table_for_split::<A>(mem.mem(), root, 3, (lvl - 2) as nat, virt.0);
                        assert(spec_table_for::<A>(mem.mem(), root, 3, (lvl - 3) as nat, virt.0)
                            is None);
                    }
                    assert(spec_table_for::<A>(mem.mem(), root, 3, 0, virt.0) is None);
                } else {
                    lemma_page_index_bound(virt.0, 12u64);
                    assert(spec_entry_at(mem.mem(), fresh, spec_page_index(virt.0, 0)) == 0);
                }
                assert(spec_walk::<A>(mem.mem(), root, virt.0) is None);
                assert(spec_entry_at(mem.mem(), table, i) == A::spec_entry_encode(fresh, tflags));
            }
        }
        Some(fresh)
    }

    /// Map the page of `virt` to the frame at `phys` with the given flag
    /// bits, creating intermediate tables from the allocator as needed.
    /// On a consistent hierarchy the leaf cell afterwards holds exactly
    /// the encoded entry, the whole path down to it is present, and a walk
    /// that was already complete allocates nothing.
    pub fn map_phys(
        &mut self,
        mem: &mut Machine,
        virt: VirtualAddress,
        phys: PhysicalAddress,
        flags: PageFlags<A>,
    ) -> (r: Option<PageFlush>)
        requires
            old(self).wf_alloc(*old(mem)),
            A::spec_frame_ok(phys.0),
            flags.spec_data() & A::spec_entry_flags_mask() == flags.spec_data(),
        ensures
            final(self).wf_alloc(*final(mem)),
            final(mem).mem().len() == old(mem).mem().len(),
            final(mem).tlb_map() == old(mem).tlb_map(),
            final(mem).spec_table() == old(mem).spec_table(),
            final(self).spec_table_addr() == old(self).spec_table_addr(),
            old(self).wf_tables(*old(mem)) ==> final(self).wf_tables(*final(mem)),
            forall|f: u64|
                f % PAGE_SIZE == 0 && #[trigger] final(self).spec_allocator().spec_is_free(f)
                    ==> old(self).spec_allocator().spec_is_free(f),
            match r {
                Some(flush) => {
                    &&& flush.spec_virt() == virt
                    &&& (old(self).wf_tables(*old(mem)) ==> {
                        let root = old(self).spec_table_addr();
                        &&& spec_table_for::<A>(final(mem).mem(), root, 3, 0, virt.0) is Some
                        &&& spec_leaf_cell::<A>(final(mem).mem(), root, virt.0) == Some(
                            A::spec_entry_encode(phys.0, flags.spec_data()),
                        )
                        &&& (spec_table_for::<A>(old(mem).mem(), root, 3, 0, virt.0) is Some
                            ==> final(self).spec_allocator() == old(self).spec_allocator())
                        &&& (spec_entry_at(old(mem).mem(), root, spec_page_index(virt.0, 3))
                            & A::spec_entry_flag_present() == 0 ==> spec_fresh_table_entry::<A>(
                            final(mem).mem(),
                            root,
                            3,
                            virt,
                        ))
                        &&& (spec_table_for::<A>(old(mem).mem(), root, 3, 2, virt.0) is Some
                            && spec_entry_at(
                            old(mem).mem(),
                            spec_table_for::<A>(old(mem).mem(), root, 3, 2, virt.0).unwrap(),
                            spec_page_index(virt.0, 2),
                        ) & A::spec_entry_flag_present() == 0 ==> spec_fresh_table_entry::<A>(
                            final(mem).mem(),
                            spec_table_for::<A>(old(mem).mem(), root, 3, 2, virt.0).unwrap(),
                            2,
                            virt,
                        ))
                        &&& (spec_table_for::<A>(old(mem).mem(), root, 3, 1, virt.0) is Some
                            && spec_entry_at(
                            old(mem).mem(),
                            spec_table_for::<A>(old(mem).mem(), root, 3, 1, virt.0).unwrap(),
                            spec_page_index(virt.0, 1),
                        ) & A::spec_entry_flag_present() == 0 ==> spec_fresh_table_entry::<A>(
                            final(mem).mem(),
                            spec_table_for::<A>(old(mem).mem(), root, 3, 1, virt.0).unwrap(),
                            1,
                            virt,
                        ))
                    })
                },
                None => old(self).wf_tables(*old(mem)) ==> {
                    let root = old(self).spec_table_addr();
                    &&& final(self).spec_allocator().spec_allocate(1) is None
                    &&& spec_walk::<A>(old(mem).mem(), root, virt.0) is None
                    &&& spec_walk::<A>(final(mem).mem(), root, virt.0) is None
                },
            },
    {
        let ghost m_0 = *mem;
        let ghost self_0 = *self;
        let ghost root_g = self.table_addr.0;
        let ghost wf0 = self_0.wf_tables(m_0);
        let root = self.table_addr.0;
        let mem_size: usize = mem.memory_size();
        if mem_size < 4096 || root > mem_size as u64 - 4096 {
            proof {
                if wf0 {
                    assert(self.spec_tables().contains_key(root));
                    assert(false);
                }
            }
            return None;
        }
        proof {
            if wf0 && spec_walk::<A>(m_0.mem(), root_g, virt.0) is Some {
                // a complete old walk has a present entry at every level
                lemma_table_for_split::<A>(m_0.mem(), root_g, 3, 1, virt.0);
                lemma_table_for_split::<A>(m_0.mem(), root_g, 3, 2, virt.0);
                lemma_table_for_split::<A>(m_0.mem(), root_g, 3, 3, virt.0);
            }
        }
        proof {
            if wf0 {
                assert(spec_table_for::<A>(m_0.mem(), root_g, 3, 3, virt.0) == Some(root));
            }
        }
        let t2 = match self.descend_or_create(mem, root, 3, virt, Ghost(wf0)) {
            Some(t) => t,
            None => {
                proof {
                    if wf0 {
                        assert(spec_walk::<A>(m_0.mem(), root_g, virt.0) is None);
                        assert(spec_walk::<A>(mem.mem(), root_g, virt.0) is None);
                    }
                }
                return None;
            },
        };
        let ghost m_1 = *mem;
        let ghost self_1 = *self;
        let t1 = match self.descend_or_create(mem, t2, 2, virt, Ghost(wf0)) {
            Some(t) => t,
            None => {
                proof {
                    if wf0 {
                        if spec_walk::<A>(m_0.mem(), root_g, virt.0) is Some {
                            assert(m_1 == m_0 && self_1 == self_0);
                            assert(false);
                        }
                        assert(spec_walk::<A>(m_1.mem(), root_g, virt.0) is None);
                        assert(spec_walk::<A>(mem.mem(), root_g, virt.0) is None);
                    }
                }
                return None;
            },
        };
        let ghost m_2 = *mem;
        let ghost self_2 = *self;
        let t0 = match self.descend_or_create(mem, t1, 1, virt, Ghost(wf0)) {
            Some(t) => t,
            None => {
                proof {
                    if wf0 {
                        if spec_walk::<A>(m_0.mem(), root_g, virt.0) is Some {
                            assert(m_1 == m_0 && self_1 == self_0);
                            assert(m_2 == m_1 && self_2 == self_1);
                            assert(false);
                        }
                        assert(spec_walk::<A>(m_1.mem(), root_g, virt.0) is None);
                        assert(spec_walk::<A>(m_2.mem(), root_g, virt.0) is None);
                        assert(spec_walk::<A>(mem.mem(), root_g, virt.0) is None);
                    }
                }
                return None;
            },
        };
        let ghost m_3 = *mem;
        let ghost self_3 = *self;
        let i0: u64 = (virt.0 >> 12u64) & 0x1FF;
        proof {
            lemma_page_index_bound(virt.0, 12u64);
            assert(spec_page_index(virt.0, 0) == i0);
            A::lemma_entry_encode(phys.0, flags.spec_data());
        }
        let pe = A::entry_encode(phys.0, flags.data());
        mem.write_phys_u64(t0 + i0 * 8, pe);
        proof {
            if wf0 {
                let tabs = self.tables@;
                assert(tabs.contains_key(t0) && tabs[t0] == 0);
                assert forall|t: u64|
                    #[trigger] tabs.contains_key(t) && tabs[t] > 0 implies (t + PAGE_SIZE <= t0
                    + i0 * 8 || t0 + i0 * 8 + 8 <= t) by {
                    lemma_pages_disjoint(t, t0);
                    assert(t0 + i0 * 8 + 8 <= t0 + PAGE_SIZE);
                }
                lemma_hierarchy_preserved::<A>(
                    m_3.mem(),
                    mem.mem(),
                    tabs,
                    t0 + i0 * 8,
                    t0 + i0 * 8 + 8,
                );
                assert(self.wf_tables(*mem));
                lemma_table_for_preserved::<A>(
                    m_3.mem(),
                    mem.mem(),
                    tabs,
                    root_g,
                    3,
                    0,
                    virt.0,
                    t0 + i0 * 8,
                    t0 + i0 * 8 + 8,
                );
                assert(spec_table_for::<A>(mem.mem(), root_g, 3, 0, virt.0) == Some(t0));
                assert(spec_entry_at(mem.mem(), t0, i0) == pe);
                assert(spec_leaf_cell::<A>(mem.mem(), root_g, virt.0) == Some(
                    A::spec_entry_encode(phys.0, flags.spec_data()),
                ));
                if spec_table_for::<A>(m_0.mem(), root_g, 3, 0, virt.0) is Some {
                    lemma_table_for_split::<A>(m_0.mem(), root_g, 3, 1, virt.0);
                    lemma_table_for_split::<A>(m_0.mem(), root_g, 3, 2, virt.0);
                    lemma_table_for_split::<A>(m_0.mem(), root_g, 3, 3, virt.0);
                    assert(spec_entry_at(m_0.mem(), root_g, spec_page_index(virt.0, 3))
                        & A::spec_entry_flag_present() != 0);
                    assert(self_1 == self_0 && m_1 == m_0);
                    assert(spec_table_for::<A>(m_1.mem(), root_g, 3, 2, virt.0) == Some(t2));
                    assert(spec_entry_at(m_1.mem(), t2, spec_page_index(virt.0, 2))
                        & A::spec_entry_flag_present() != 0);
                    assert(self_2 == self_1 && m_2 == m_1);
                    assert(spec_table_for::<A>(m_2.mem(), root_g, 3, 1, virt.0) == Some(t1));
                    assert(spec_entry_at(m_2.mem(), t1, spec_page_index(virt.0, 1))
                        & A::spec_entry_flag_present() != 0);
                    assert(self_3 == self_2 && m_3 == m_2);
                }
                // the frames of the final path are distinct tables
                assert(tabs.contains_key(root_g) && tabs[root_g] == 3);
                assert(tabs.contains_key(t2) && tabs[t2] == 2);
                assert(tabs.contains_key(t1) && tabs[t1] == 1);
                lemma_page_index_bound(virt.0, 39u64);
                lemma_page_index_bound(virt.0, 30u64);
                lemma_page_index_bound(virt.0, 21u64);
                // a freshly installed root-level pointer survives the later
                // writes
                if spec_entry_at(m_0.mem(), root_g, spec_page_index(virt.0, 3))
                    & A::spec_entry_flag_present() == 0 {
                    let ghost ix = spec_page_index(virt.0, 3);
                    assert(self_1.spec_tables().contains_key(root_g));
                    assert(self_2.spec_tables().contains_key(root_g));
                    assert(root_g + ix * 8 + 8 <= root_g + PAGE_SIZE);
                    assert(spec_entry_at(m_2.mem(), root_g, ix) == spec_entry_at(
                        m_1.mem(),
                        root_g,
                        ix,
                    ));
                    assert(spec_entry_at(m_3.mem(), root_g, ix) == spec_entry_at(
                        m_2.mem(),
                        root_g,
                        ix,
                    ));
                    lemma_pages_disjoint(root_g, t0);
                    assert(t0 + i0 * 8 + 8 <= t0 + PAGE_SIZE);
                    assert(spec_entry_at(mem.mem(), root_g, ix) == spec_entry_at(
                        m_3.mem(),
                        root_g,
                        ix,
                    ));
                    assert(spec_fresh_table_entry::<A>(mem.mem(), root_g, 3, virt));
                }
                // likewise one level down
                if spec_table_for::<A>(m_0.mem(), root_g, 3, 2, virt.0) is Some && spec_entry_at(
                    m_0.mem(),
                    spec_table_for::<A>(m_0.mem(), root_g, 3, 2, virt.0).unwrap(),
                    spec_page_index(virt.0, 2),
                ) & A::spec_entry_flag_present() == 0 {
                    let ghost ix = spec_page_index(virt.0, 2);
                    lemma_table_for_split::<A>(m_0.mem(), root_g, 3, 3, virt.0);
                    assert(spec_entry_at(m_0.mem(), root_g, spec_page_index(virt.0, 3))
                        & A::spec_entry_flag_present() != 0);
                    assert(self_1 == self_0 && m_1 == m_0);
                    assert(spec_table_for::<A>(m_0.mem(), root_g, 3, 2, virt.0) == Some(t2));
                    assert(spec_entry_at(m_1.mem(), t2, ix) & A::spec_entry_flag_present() == 0);
                    assert(spec_fresh_table_entry::<A>(m_2.mem(), t2, 2, virt));
                    assert(self_2.spec_tables().contains_key(t2));
                    assert(t2 + ix * 8 + 8 <= t2 + PAGE_SIZE);
                    assert(spec_entry_at(m_3.mem(), t2, ix) == spec_entry_at(m_2.mem(), t2, ix));
                    lemma_pages_disjoint(t2, t0);
                    assert(t0 + i0 * 8 + 8 <= t0 + PAGE_SIZE);
                    assert(spec_entry_at(mem.mem(), t2, ix) == spec_entry_at(m_3.mem(), t2, ix));
                    assert(spec_fresh_table_entry::<A>(mem.mem(), t2, 2, virt));
                }
                // and at the last intermediate level
                if spec_table_for::<A>(m_0.mem(), root_g, 3, 1, virt.0) is Some && spec_entry_at(
                    m_0.mem(),
                    spec_table_for::<A>(m_0.mem(), root_g, 3, 1, virt.0).unwrap(),
                    spec_page_index(virt.0, 1),
                ) & A::spec_entry_flag_present() == 0 {
                    let ghost ix = spec_page_index(virt.0, 1);
                    lemma_table_for_split::<A>(m_0.mem(), root_g, 3, 3, virt.0);
                    lemma_table_for_split::<A>(m_0.mem(), root_g, 3, 2, virt.0);
                    assert(spec_entry_at(m_0.mem(), root_g, spec_page_index(virt.0, 3))
                        & A::spec_entry_flag_present() != 0);
                    assert(self_1 == self_0 && m_1 == m_0);
                    assert(spec_table_for::<A>(m_1.mem(), root_g, 3, 2, virt.0) == Some(t2));
                    assert(spec_entry_at(m_0.mem(), t2, spec_page_index(virt.0, 2))
                        & A::spec_entry_flag_present() != 0);
                    assert(self_2 == self_1 && m_2 == m_1);
                    assert(spec_table_for::<A>(m_0.mem(), root_g, 3, 1, virt.0) == Some(t1));
                    assert(spec_entry_at(m_2.mem(), t1, ix) & A::spec_entry_flag_present() == 0);
                    assert(spec_fresh_table_entry::<A>(m_3.mem(), t1, 1, virt));
                    lemma_pages_disjoint(t1, t0);
                    assert(t1 + ix * 8 + 8 <= t1 + PAGE_SIZE);
                    assert(t0 + i0 * 8 + 8 <= t0 + PAGE_SIZE);
                    assert(spec_entry_at(mem.mem(), t1, ix) == spec_entry_at(m_3.mem(), t1, ix));
                    assert(spec_fresh_table_entry::<A>(mem.mem(), t1, 1, virt));
                }
            }
        }
        Some(PageFlush::new(virt))
    }

    /// Borrow the allocator, for usage reporting.
    pub fn allocator(&self) -> (r: &F)
        ensures
            *r == self.spec_allocator(),
    {
        &self.allocator
    }

    /// Allocate a fresh data frame and map the page of `virt` to it.
    pub fn map(&mut self, mem: &mut Machine, virt: VirtualAddress, flags: PageFlags<A>) -> (r:
        Option<PageFlush>)
        requires
            old(self).wf_alloc(*old(mem)),
            flags.spec_data() & A::spec_entry_flags_mask() == flags.spec_data(),
        ensures
            final(self).wf_alloc(*final(mem)),
            final(mem).mem().len() == old(mem).mem().len(),
            final(mem).tlb_map() == old(mem).tlb_map(),
            final(mem).spec_table() == old(mem).spec_table(),
            final(self).spec_table_addr() == old(self).spec_table_addr(),
            old(self).wf_tables(*old(mem)) ==> final(self).wf_tables(*final(mem)),
            match r {
                Some(flush) => {
                    &&& flush.spec_virt() == virt
                    &&& old(self).spec_allocator().spec_allocate(1) is Some
                    &&& (old(self).wf_tables(*old(mem)) ==> {
                        let root = old(self).spec_table_addr();
                        let p = old(self).spec_allocator().spec_allocate(1).unwrap();
                        &&& spec_table_for::<A>(final(mem).mem(), root, 3, 0, virt.0) is Some
                        &&& spec_leaf_cell::<A>(final(mem).mem(), root, virt.0) == Some(
                            A::spec_entry_encode(p, flags.spec_data()),
                        )
                    })
                },
                None => {
                    &&& (old(self).spec_allocator().spec_allocate(1) is None ==> *final(self)
                        == *old(self) && final(mem).mem() == old(mem).mem())
                    &&& (old(self).wf_tables(*old(mem)) ==> final(self).spec_allocator().spec_allocate(1) is None)
                    &&& (old(self).wf_tables(*old(mem)) && old(self).spec_allocator().spec_allocate(
                        1,
                    ) is Some ==> spec_walk::<A>(
                        final(mem).mem(),
                        old(self).spec_table_addr(),
                        virt.0,
                    ) is None)
                },
            },
    {
        let ghost m_0 = *mem;
        let ghost self_0 = *self;
        let ghost wf0 = self_0.wf_tables(m_0);
        let phys = match self.allocator.allocate_one(mem) {
            Some(p) => p,
            None => {
                return None;
            },
        };
        proof {
            A::lemma_frame_ok_from_bounds(phys.0);
            if wf0 {
                // the data frame was free, so it is no table, and zeroing
                // it left every table untouched
                let tabs = self.tables@;
                assert forall|t: u64, j: u64|
                    tabs.contains_key(t) && j < 512 implies #[trigger] spec_entry_at(
                    mem.mem(),
                    t,
                    j,
                ) == spec_entry_at(m_0.mem(), t, j) by {
                    lemma_pages_disjoint(t, phys.0);
                    assert(t + j * 8 + 8 <= t + PAGE_SIZE);
                }
                assert forall|t: u64| #[trigger] tabs.contains_key(t) implies !self
                    .spec_allocator().spec_is_free(t) by {
                    lemma_pages_disjoint(t, phys.0);
                }
                assert(self.wf_tables(*mem));
            }
        }
        self.map_phys(mem, virt, phys, flags)
    }

    /// Map the frame at `phys` at its place in the kernel's linear map.
    pub fn map_linearly(&mut self, mem: &mut Machine, phys: PhysicalAddress, flags: PageFlags<A>)
        -> (r: Option<(VirtualAddress, PageFlush)>)
        requires
            old(self).wf_alloc(*old(mem)),
            A::spec_frame_ok(phys.0),
            flags.spec_data() & A::spec_entry_flags_mask() == flags.spec_data(),
            phys.0 + A::spec_phys_offset() <= u64::MAX,
        ensures
            final(self).wf_alloc(*final(mem)),
            final(mem).mem().len() == old(mem).mem().len(),
            final(mem).tlb_map() == old(mem).tlb_map(),
            final(mem).spec_table() == old(mem).spec_table(),
            final(self).spec_table_addr() == old(self).spec_table_addr(),
            old(self).wf_tables(*old(mem)) ==> final(self).wf_tables(*final(mem)),
            match r {
                Some((virt, flush)) => {
                    &&& virt.0 == phys.0 + A::spec_phys_offset()
                    &&& flush.spec_virt() == virt
                    &&& (old(self).wf_tables(*old(mem)) ==> {
                        let root = old(self).spec_table_addr();
                        &&& spec_table_for::<A>(final(mem).mem(), root, 3, 0, virt.0) is Some
                        &&& spec_leaf_cell::<A>(final(mem).mem(), root, virt.0) == Some(
                            A::spec_entry_encode(phys.0, flags.spec_data()),
                        )
                    })
                },
                None => old(self).wf_tables(*old(mem)) ==> {
                    &&& final(self).spec_allocator().spec_allocate(1) is None
                    &&& spec_walk::<A>(
                        final(mem).mem(),
                        old(self).spec_table_addr(),
                        (phys.0 + A::spec_phys_offset()) as u64,
                    ) is None
                },
            },
    {
        let virt = phys_to_virt::<A>(phys);
        match self.map_phys(mem, virt, phys, flags) {
            Some(flush) => Some((virt, flush)),
            None => None,
        }
    }

    /// Walk to the leaf table serving `virt`, when the whole path down to
    /// it is present.
    fn walk_to_leaf(&self, mem: &Machine, virt: VirtualAddress) -> (r: Option<u64>)
        ensures
            match r {
                Some(t0) => {
                    &&& spec_table_for::<A>(mem.mem(), self.spec_table_addr(), 3, 0, virt.0)
                        == Some(t0)
                    &&& t0 + 4096 <= mem.mem().len()
                    &&& (self.wf_tables(*mem) ==> self.spec_tables().contains_key(t0)
                        && self.spec_tables()[t0] == 0)
                },
                None => spec_table_for::<A>(mem.mem(), self.spec_table_addr(), 3, 0, virt.0)
                    is None,
            },
    {
        let ghost m = mem.mem();
        let ghost wf = self.wf_tables(*mem);
        let root = self.table_addr.0;
        let mem_size: usize = mem.memory_size();
        if mem_size < 4096 || root > mem_size as u64 - 4096 {
            return None;
        }
        let i3: u64 = (virt.0 >> 39u64) & 0x1FF;
        proof {
            lemma_page_index_bound(virt.0, 39u64);
        }
        let e3 = mem.read_phys_u64(root + i3 * 8);
        proof {
            assert(spec_page_index(virt.0, 3) == i3);
            assert(e3 == spec_entry_at(m, root, i3));
            lemma_table_for_unfold::<A>(m, root, 3, virt.0);
        }
        if e3 & A::entry_flag_present() == 0 {
            return None;
        }
        let t2 = A::entry_address(e3);
        proof {
            A::lemma_entry_address_bound(e3);
        }
        if t2 > mem_size as u64 - 4096 {
            return None;
        }
        let i2: u64 = (virt.0 >> 30u64) & 0x1FF;
        proof {
            lemma_page_index_bound(virt.0, 30u64);
        }
        let e2 = mem.read_phys_u64(t2 + i2 * 8);
        proof {
            assert(spec_page_index(virt.0, 2) == i2);
            assert(e2 == spec_entry_at(m, t2, i2));
            lemma_table_for_unfold::<A>(m, t2, 2, virt.0);
        }
        if e2 & A::entry_flag_present() == 0 {
            return None;
        }
        let t1 = A::entry_address(e2);
        proof {
            A::lemma_entry_address_bound(e2);
        }
        if t1 > mem_size as u64 - 4096 {
            return None;
        }
        let i1: u64 = (virt.0 >> 21u64) & 0x1FF;
        proof {
            lemma_page_index_bound(virt.0, 21u64);
        }
        let e1 = mem.read_phys_u64(t1 + i1 * 8);
        proof {
            assert(spec_page_index(virt.0, 1) == i1);
            assert(e1 == spec_entry_at(m, t1, i1));
            lemma_table_for_unfold::<A>(m, t1, 1, virt.0);
        }
        if e1 & A::entry_flag_present() == 0 {
            return None;
        }
        let t0 = A::entry_address(e1);
        proof {
            A::lemma_entry_address_bound(e1);
        }
        if t0 > mem_size as u64 - 4096 {
            return None;
        }
        proof {
            assert(spec_table_for::<A>(m, t0, 0, 0, virt.0) == Some(t0));
        }
        Some(t0)
    }

    /// Replace the flag bits of an existing mapping; fails, with nothing
    /// changed, exactly when `virt` is not mapped.
    pub fn remap(&mut self, mem: &mut Machine, virt: VirtualAddress, flags: PageFlags<A>) -> (r:
        Option<PageFlush>)
        requires
            flags.spec_data() & A::spec_entry_flags_mask() == flags.spec_data(),
        ensures
            final(mem).mem().len() == old(mem).mem().len(),
            final(mem).tlb_map() == old(mem).tlb_map(),
            final(mem).spec_table() == old(mem).spec_table(),
            *final(self) == *old(self),
            old(self).wf_tables(*old(mem)) ==> final(self).wf_tables(*final(mem)),
            r is Some <==> spec_walk::<A>(old(mem).mem(), old(self).spec_table_addr(), virt.0)
                is Some,
            match r {
                Some(flush) => {
                    &&& flush.spec_virt() == virt
                    &&& (old(self).wf_tables(*old(mem)) ==> spec_leaf_cell::<A>(
                        final(mem).mem(),
                        old(self).spec_table_addr(),
                        virt.0,
                    ) == Some(
                        A::spec_entry_encode(
                            A::spec_entry_address(
                                spec_walk::<A>(
                                    old(mem).mem(),
                                    old(self).spec_table_addr(),
                                    virt.0,
                                ).unwrap(),
                            ),
                            flags.spec_data(),
                        ),
                    ))
                },
                None => final(mem).mem() == old(mem).mem(),
            },
    {
        let ghost m_0 = *mem;
        let ghost wf0 = old(self).wf_tables(m_0);
        let ghost root_g = self.table_addr.0;
        let t0 = match self.walk_to_leaf(mem, virt) {
            Some(t) => t,
            None => {
                return None;
            },
        };
        let i0: u64 = (virt.0 >> 12u64) & 0x1FF;
        proof {
            mem.lemma_mem_bounded();
            lemma_page_index_bound(virt.0, 12u64);
            assert(spec_page_index(virt.0, 0) == i0);
        }
        let e0 = mem.read_phys_u64(t0 + i0 * 8);
        proof {
            assert(e0 == spec_entry_at(mem.mem(), t0, i0));
        }
        if e0 & A::entry_flag_present() == 0 {
            return None;
        }
        let addr = A::entry_address(e0);
        proof {
            A::lemma_entry_address_bound(e0);
            A::lemma_entry_encode(addr, flags.spec_data());
        }
        let pe = A::entry_encode(addr, flags.data());
        let ghost m_1 = *mem;
        mem.write_phys_u64(t0 + i0 * 8, pe);
        proof {
            if wf0 {
                let tabs = self.tables@;
                assert(tabs.contains_key(t0) && tabs[t0] == 0);
                assert forall|t: u64|
                    #[trigger] tabs.contains_key(t) && tabs[t] > 0 implies (t + PAGE_SIZE <= t0
                    + i0 * 8 || t0 + i0 * 8 + 8 <= t) by {
                    lemma_pages_disjoint(t, t0);
                    assert(t0 + i0 * 8 + 8 <= t0 + PAGE_SIZE);
                }
                lemma_hierarchy_preserved::<A>(
                    m_1.mem(),
                    mem.mem(),
                    tabs,
                    t0 + i0 * 8,
                    t0 + i0 * 8 + 8,
                );
                lemma_table_for_preserved::<A>(
                    m_1.mem(),
                    mem.mem(),
                    tabs,
                    root_g,
                    3,
                    0,
                    virt.0,
                    t0 + i0 * 8,
                    t0 + i0 * 8 + 8,
                );
                assert(spec_entry_at(mem.mem(), t0, i0) == pe);
            }
        }
        Some(PageFlush::new(virt))
    }

    /// Whether every entry of the table at `t` is non-present.
    fn table_is_empty(&self, mem: &Machine, t: u64) -> (r: bool)
        requires
            t + 4096 <= mem.mem().len(),
        ensures
            r == forall|j: u64|
                j < 512 ==> (#[trigger] spec_entry_at(mem.mem(), t, j))
                    & A::spec_entry_flag_present() == 0,
    {
        proof {
            mem.lemma_mem_bounded();
        }
        let mut j: u64 = 0;
        while j < 512
            invariant
                t + 4096 <= mem.mem().len(),
                mem.mem().len() <= usize::MAX,
                j <= 512,
                forall|k: u64|
                    k < j ==> (#[trigger] spec_entry_at(mem.mem(), t, k))
                        & A::spec_entry_flag_present() == 0,
            decreases 512 - j,
        {
            let e = mem.read_phys_u64(t + j * 8);
            proof {
                assert(e == spec_entry_at(mem.mem(), t, j));
            }
            if e & A::entry_flag_present() != 0 {
                return false;
            }
            j = j + 1;
        }
        true
    }

    /// After the leaf entry of `virt` was zeroed, walk the path again and
    /// hand every intermediate table that holds no other present entry
    /// back to the allocator, clearing its parent's pointer.
    #[verifier::rlimit(100)]
    fn reclaim_parent_tables(
        &mut self,
        mem: &mut Machine,
        virt: VirtualAddress,
        t0: u64,
        Ghost(m_orig): Ghost<Machine>,
        Ghost(wf0): Ghost<bool>,
    )
        requires
            old(self).spec_allocator().inv(old(mem).mem().len() as int),
            old(mem).mem().len() <= 0x0010_0000_0000_0000,
            m_orig.mem().len() == old(mem).mem().len(),
            wf0 == old(self).wf_tables(m_orig),
            wf0 ==> spec_hierarchy_wf::<A>(old(mem).mem(), old(self).spec_tables()),
            wf0 ==> spec_table_for::<A>(m_orig.mem(), old(self).spec_table_addr(), 3, 0, virt.0)
                == Some(t0),
            wf0 ==> spec_table_for::<A>(old(mem).mem(), old(self).spec_table_addr(), 3, 0, virt.0)
                == Some(t0),
            wf0 ==> spec_table_for::<A>(old(mem).mem(), old(self).spec_table_addr(), 3, 1, virt.0)
                == spec_table_for::<A>(m_orig.mem(), old(self).spec_table_addr(), 3, 1, virt.0),
            wf0 ==> spec_table_for::<A>(old(mem).mem(), old(self).spec_table_addr(), 3, 2, virt.0)
                == spec_table_for::<A>(m_orig.mem(), old(self).spec_table_addr(), 3, 2, virt.0),
            wf0 ==> spec_entry_at(old(mem).mem(), t0, spec_page_index(virt.0, 0)) == 0,
            wf0 ==> forall|b: int|
                0 <= b < m_orig.mem().len() && !(t0 + spec_page_index(virt.0, 0) * 8 <= b < t0
                    + spec_page_index(virt.0, 0) * 8 + 8) ==> old(mem).mem()[b]
                    == m_orig.mem()[b],
            wf0 ==> spec_walk::<A>(old(mem).mem(), old(self).spec_table_addr(), virt.0) is None,
        ensures
            final(self).spec_table_addr() == old(self).spec_table_addr(),
            final(self).spec_allocator().inv(final(mem).mem().len() as int),
            final(mem).mem().len() == old(mem).mem().len(),
            final(mem).tlb_map() == old(mem).tlb_map(),
            final(mem).spec_table() == old(mem).spec_table(),
            wf0 ==> spec_walk::<A>(final(mem).mem(), old(self).spec_table_addr(), virt.0) is None,
            forall|ad: u64, ct: u64|
                #[trigger] final(self).spec_allocator().spec_can_free(ad, ct)
                    == old(self).spec_allocator().spec_can_free(ad, ct),
            wf0 ==> {
                let root = old(self).spec_table_addr();
                let tt0 = spec_table_for::<A>(m_orig.mem(), root, 3, 0, virt.0).unwrap();
                let tt1 = spec_table_for::<A>(m_orig.mem(), root, 3, 1, virt.0).unwrap();
                let tt2 = spec_table_for::<A>(m_orig.mem(), root, 3, 2, virt.0).unwrap();
                forall|f: u64|
                    !(tt0 <= f < tt0 + PAGE_SIZE) && !(tt1 <= f < tt1 + PAGE_SIZE) && !(tt2 <= f
                        < tt2 + PAGE_SIZE)
                        ==> #[trigger] final(self).spec_allocator().spec_is_free(f) == old(
                        self,
                    ).spec_allocator().spec_is_free(f)
            },
            wf0 ==> {
                let root = old(self).spec_table_addr();
                let mid = old(self).spec_allocator();
                let tt0 = spec_table_for::<A>(m_orig.mem(), root, 3, 0, virt.0).unwrap();
                let tt1 = spec_table_for::<A>(m_orig.mem(), root, 3, 1, virt.0).unwrap();
                let tt2 = spec_table_for::<A>(m_orig.mem(), root, 3, 2, virt.0).unwrap();
                (mid.spec_can_free(tt0, 1) && mid.spec_can_free(tt1, 1) && mid.spec_can_free(
                    tt2,
                    1,
                )) ==> final(self).spec_allocator().spec_used_frames() == mid.spec_used_frames()
                    - spec_tables_reclaimed::<A>(m_orig.mem(), root, virt.0)
            },
    {
        let ghost m_0 = m_orig;
        let ghost m_2 = *mem;
        let ghost mid0 = old(self).spec_allocator();
        let ghost tabs0 = self.tables@;
        let ghost root_g = self.table_addr.0;
        let ghost rec0 = spec_tables_reclaimed::<A>(m_0.mem(), root_g, virt.0);
        let ghost i0 = spec_page_index(virt.0, 0);
        let root = self.table_addr.0;
        let mem_size: usize = mem.memory_size();
        if mem_size < 4096 || root > mem_size as u64 - 4096 {
            proof {
                if wf0 {
                    mem.lemma_mem_bounded();
                    assert(tabs0.contains_key(root_g));
                    assert(false);
                }
            }
            return;
        }
        let i3: u64 = (virt.0 >> 39u64) & 0x1FF;
        let i2: u64 = (virt.0 >> 30u64) & 0x1FF;
        let i1: u64 = (virt.0 >> 21u64) & 0x1FF;
        proof {
            lemma_page_index_bound(virt.0, 39u64);
            lemma_page_index_bound(virt.0, 30u64);
            lemma_page_index_bound(virt.0, 21u64);
            lemma_page_index_bound(virt.0, 12u64);
            assert(spec_page_index(virt.0, 3) == i3);
            assert(spec_page_index(virt.0, 2) == i2);
            assert(spec_page_index(virt.0, 1) == i1);
            assert(i0 == (virt.0 >> 12u64) & 0x1FF);
            assert(i0 < 512);
        }
        let e3 = mem.read_phys_u64(root + i3 * 8);
        proof {
            assert(e3 == spec_entry_at(m_2.mem(), root, i3));
            if wf0 {
                assert(spec_table_for::<A>(m_2.mem(), root_g, 3, 0, virt.0) == Some(t0));
                lemma_table_for_unfold::<A>(m_2.mem(), root, 3, virt.0);
            }
        }
        if e3 & A::entry_flag_present() == 0 {
            proof {
                if wf0 {
                    assert(false);
                }
            }
            return;
        }
        let t2 = A::entry_address(e3);
        proof {
            A::lemma_entry_address_bound(e3);
            if wf0 {
                assert(self.tables@.contains_key(t2) && self.tables@[t2] == 2);
            }
        }
        if t2 > mem_size as u64 - 4096 {
            proof {
                if wf0 {
                    assert(false);
                }
            }
            return;
        }
        proof {
            if wf0 {
                // the walk above the leaf was untouched by zeroing the
                // leaf entry, so the re-read path is the old path
                lemma_table_for_step::<A>(m_2.mem(), root_g, 3, 2, virt.0);
                assert(spec_table_for::<A>(m_2.mem(), root_g, 3, 2, virt.0) == Some(t2));
                assert(spec_table_for::<A>(m_0.mem(), root_g, 3, 2, virt.0) == Some(t2));
            }
        }
        let e2 = mem.read_phys_u64(t2 + i2 * 8);
        proof {
            assert(e2 == spec_entry_at(m_2.mem(), t2, i2));
            if wf0 {
                lemma_table_for_unfold::<A>(m_2.mem(), t2, 2, virt.0);
                assert(spec_table_for::<A>(m_2.mem(), t2, 2, 0, virt.0) == Some(t0));
            }
        }
        if e2 & A::entry_flag_present() == 0 {
            proof {
                if wf0 {
                    assert(false);
                }
            }
            return;
        }
        let t1 = A::entry_address(e2);
        proof {
            A::lemma_entry_address_bound(e2);
            if wf0 {
                assert(self.tables@.contains_key(t1) && self.tables@[t1] == 1);
            }
        }
        if t1 > mem_size as u64 - 4096 {
            proof {
                if wf0 {
                    assert(false);
                }
            }
            return;
        }
        proof {
            if wf0 {
                lemma_table_for_step::<A>(m_2.mem(), root_g, 3, 1, virt.0);
                lemma_table_for_step::<A>(m_2.mem(), t2, 2, 1, virt.0);
                assert(spec_table_for::<A>(m_2.mem(), t2, 2, 1, virt.0) == Some(t1));
                assert(spec_table_for::<A>(m_2.mem(), root_g, 3, 1, virt.0) == Some(t1));
                assert(spec_table_for::<A>(m_0.mem(), root_g, 3, 1, virt.0) == Some(t1));
            }
        }
        let e1 = mem.read_phys_u64(t1 + i1 * 8);
        proof {
            assert(e1 == spec_entry_at(m_2.mem(), t1, i1));
            if wf0 {
                lemma_table_for_unfold::<A>(m_2.mem(), t1, 1, virt.0);
                assert(spec_table_for::<A>(m_2.mem(), t1, 1, 0, virt.0) == Some(t0));
            }
        }
        if e1 & A::entry_flag_present() == 0 {
            proof {
                if wf0 {
                    assert(false);
                }
            }
            return;
        }
        let t0b = A::entry_address(e1);
        proof {
            A::lemma_entry_address_bound(e1);
            if wf0 {
                assert(self.tables@.contains_key(t0b) && self.tables@[t0b] == 0);
                assert(root != t0b && root != t1 && root != t2 && t2 != t1 && t2 != t0b && t1
                    != t0b);
                assert(spec_table_for::<A>(m_2.mem(), t0b, 0, 0, virt.0) == Some(t0b));
                assert(t0b == t0);
            }
        }
        if t0b > mem_size as u64 - 4096 {
            proof {
                if wf0 {
                    assert(false);
                }
            }
            return;
        }
        if !self.table_is_empty(mem, t0b) {
            proof {
                if wf0 {
                    // some other present entry of the leaf table survives
                    // in the old memory too: nothing is reclaimed
                    assert(exists|j: u64|
                        j < 512 && (#[trigger] spec_entry_at(m_2.mem(), t0b, j))
                            & A::spec_entry_flag_present() != 0);
                    let j = choose|j: u64|
                        j < 512 && (#[trigger] spec_entry_at(m_2.mem(), t0b, j))
                            & A::spec_entry_flag_present() != 0;
                    lemma_and_zero(A::spec_entry_flag_present());
                    assert(j != i0);
                    assert(t0 + 4096 <= m_0.mem().len());
                    lemma_entries_preserved_except(m_0.mem(), m_2.mem(), t0, i0);
                    assert(!spec_only_entry::<A>(m_0.mem(), t0, i0));
                    assert(rec0 == 0);
                }
            }
            return;
        }
        proof {
            if wf0 {
                // the leaf table held nothing else, in the old memory too
                assert(t0 + 4096 <= m_0.mem().len());
                lemma_entries_preserved_except(m_0.mem(), m_2.mem(), t0, i0);
                assert forall|j: u64| j < 512 && j != i0 implies (#[trigger] spec_entry_at(
                    m_0.mem(),
                    t0,
                    j,
                )) & A::spec_entry_flag_present() == 0 by {
                    assert(spec_entry_at(m_2.mem(), t0b, j) & A::spec_entry_flag_present() == 0);
                    assert(spec_entry_at(m_2.mem(), t0, j) == spec_entry_at(m_0.mem(), t0, j));
                }
                assert(spec_only_entry::<A>(m_0.mem(), t0, i0));
            }
            self.tables@ = self.tables@.remove(t0b);
        }
        let _fr0 = self.allocator.free_one(mem, PhysicalAddress::new(t0b));
        let ghost m_a = *mem;
        proof {
            if wf0 {
                assert(_fr0 == mid0.spec_can_free(t0b, 1));
                assert(!mid0.spec_is_free(t0b));
                assert(mid0.spec_can_free(t0b, 1) ==> self.allocator.spec_used_frames()
                    == mid0.spec_used_frames() - 1);
            }
        }
        mem.write_phys_u64(t1 + i1 * 8, 0);
        let ghost m_b = *mem;
        proof {
            if wf0 {
                // the cleared slot cuts the walk at the second level, and
                // the frames above it were never written
                lemma_pages_disjoint(root, t0b);
                lemma_pages_disjoint(root, t1);
                lemma_pages_disjoint(t2, t0b);
                lemma_pages_disjoint(t2, t1);
                lemma_pages_disjoint(t1, t0b);
                assert(root + i3 * 8 + 8 <= root + PAGE_SIZE);
                assert(t2 + i2 * 8 + 8 <= t2 + PAGE_SIZE);
                assert(t1 + i1 * 8 + 8 <= t1 + PAGE_SIZE);
                assert(spec_entry_at(m_a.mem(), root, i3) == e3);
                assert(spec_entry_at(m_b.mem(), root, i3) == e3);
                assert(spec_entry_at(m_a.mem(), t2, i2) == e2);
                assert(spec_entry_at(m_b.mem(), t2, i2) == e2);
                assert(spec_entry_at(m_b.mem(), t1, i1) == 0);
                lemma_and_zero(A::spec_entry_flag_present());
                lemma_table_for_unfold::<A>(m_b.mem(), root, 3, virt.0);
                lemma_table_for_unfold::<A>(m_b.mem(), t2, 2, virt.0);
                lemma_table_for_unfold::<A>(m_b.mem(), t1, 1, virt.0);
                assert(spec_table_for::<A>(m_b.mem(), root, 3, 0, virt.0) is None);
                assert(spec_walk::<A>(m_b.mem(), root_g, virt.0) is None);
            }
        }
        if !self.table_is_empty(mem, t1) {
            proof {
                if wf0 {
                    // the mid-level table still holds another entry, in
                    // the old memory too: only the leaf was reclaimed
                    assert(exists|j: u64|
                        j < 512 && (#[trigger] spec_entry_at(m_b.mem(), t1, j))
                            & A::spec_entry_flag_present() != 0);
                    let j = choose|j: u64|
                        j < 512 && (#[trigger] spec_entry_at(m_b.mem(), t1, j))
                            & A::spec_entry_flag_present() != 0;
                    lemma_and_zero(A::spec_entry_flag_present());
                    assert(j != i1);
                    lemma_pages_disjoint(t1, t0b);
                    assert(t0b + i0 * 8 + 8 <= t0b + 4096);
                    lemma_entries_preserved(
                        m_0.mem(),
                        m_2.mem(),
                        t1,
                        t0b + i0 * 8,
                        t0b + i0 * 8 + 8,
                    );
                    lemma_entries_preserved(m_2.mem(), m_a.mem(), t1, t0b as int, t0b + 4096);
                    lemma_entries_preserved_except(m_a.mem(), m_b.mem(), t1, i1);
                    assert(!spec_only_entry::<A>(m_0.mem(), t1, i1));
                    assert(rec0 == 1);
                }
            }
            return;
        }
        proof {
            if wf0 {
                lemma_pages_disjoint(t1, t0b);
                assert(t0b + i0 * 8 + 8 <= t0b + 4096);
                lemma_entries_preserved(
                    m_0.mem(),
                    m_2.mem(),
                    t1,
                    t0b + i0 * 8,
                    t0b + i0 * 8 + 8,
                );
                lemma_entries_preserved(m_2.mem(), m_a.mem(), t1, t0b as int, t0b + 4096);
                lemma_entries_preserved_except(m_a.mem(), m_b.mem(), t1, i1);
                assert forall|j: u64| j < 512 && j != i1 implies (#[trigger] spec_entry_at(
                    m_0.mem(),
                    t1,
                    j,
                )) & A::spec_entry_flag_present() == 0 by {
                    assert(spec_entry_at(m_b.mem(), t1, j) & A::spec_entry_flag_present() == 0);
                    assert(spec_entry_at(m_a.mem(), t1, j) == spec_entry_at(m_b.mem(), t1, j));
                    assert(spec_entry_at(m_2.mem(), t1, j) == spec_entry_at(m_a.mem(), t1, j));
                    assert(spec_entry_at(m_0.mem(), t1, j) == spec_entry_at(m_2.mem(), t1, j));
                }
                assert(spec_only_entry::<A>(m_0.mem(), t1, i1));
            }
            self.tables@ = self.tables@.remove(t1);
        }
        let ghost alloc_1 = self.allocator;
        let _fr1 = self.allocator.free_one(mem, PhysicalAddress::new(t1));
        let ghost m_c = *mem;
        proof {
            if wf0 {
                assert(_fr1 == mid0.spec_can_free(t1, 1));
                assert(!(t0b <= t1 < t0b + PAGE_SIZE));
                assert(!alloc_1.spec_is_free(t1));
                assert((mid0.spec_can_free(t0b, 1) && mid0.spec_can_free(t1, 1))
                    ==> self.allocator.spec_used_frames() == mid0.spec_used_frames() - 2);
            }
        }
        mem.write_phys_u64(t2 + i2 * 8, 0);
        let ghost m_d = *mem;
        proof {
            if wf0 {
                assert(spec_entry_at(m_c.mem(), root, i3) == e3);
                assert(spec_entry_at(m_d.mem(), root, i3) == e3);
                assert(spec_entry_at(m_d.mem(), t2, i2) == 0);
                lemma_and_zero(A::spec_entry_flag_present());
                lemma_table_for_unfold::<A>(m_d.mem(), root, 3, virt.0);
                lemma_table_for_unfold::<A>(m_d.mem(), t2, 2, virt.0);
                assert(spec_table_for::<A>(m_d.mem(), root, 3, 0, virt.0) is None);
                assert(spec_walk::<A>(m_d.mem(), root_g, virt.0) is None);
            }
        }
        if !self.table_is_empty(mem, t2) {
            proof {
                if wf0 {
                    // the top-level table still holds another entry, in
                    // the old memory too: two tables were reclaimed
                    assert(exists|j: u64|
                        j < 512 && (#[trigger] spec_entry_at(m_d.mem(), t2, j))
                            & A::spec_entry_flag_present() != 0);
                    let j = choose|j: u64|
                        j < 512 && (#[trigger] spec_entry_at(m_d.mem(), t2, j))
                            & A::spec_entry_flag_present() != 0;
                    lemma_and_zero(A::spec_entry_flag_present());
                    assert(j != i2);
                    lemma_pages_disjoint(t2, t0b);
                    lemma_pages_disjoint(t2, t1);
                    assert(t0b + i0 * 8 + 8 <= t0b + 4096);
                    assert(t1 + i1 * 8 + 8 <= t1 + 4096);
                    lemma_entries_preserved(
                        m_0.mem(),
                        m_2.mem(),
                        t2,
                        t0b + i0 * 8,
                        t0b + i0 * 8 + 8,
                    );
                    lemma_entries_preserved(m_2.mem(), m_a.mem(), t2, t0b as int, t0b + 4096);
                    lemma_entries_preserved(
                        m_a.mem(),
                        m_b.mem(),
                        t2,
                        t1 + i1 * 8,
                        t1 + i1 * 8 + 8,
                    );
                    lemma_entries_preserved(m_b.mem(), m_c.mem(), t2, t1 as int, t1 + 4096);
                    lemma_entries_preserved_except(m_c.mem(), m_d.mem(), t2, i2);
                    assert(!spec_only_entry::<A>(m_0.mem(), t2, i2));
                    assert(rec0 == 2);
                }
            }
            return;
        }
        proof {
            if wf0 {
                lemma_pages_disjoint(t2, t0b);
                lemma_pages_disjoint(t2, t1);
                assert(t0b + i0 * 8 + 8 <= t0b + 4096);
                assert(t1 + i1 * 8 + 8 <= t1 + 4096);
                lemma_entries_preserved(
                    m_0.mem(),
                    m_2.mem(),
                    t2,
                    t0b + i0 * 8,
                    t0b + i0 * 8 + 8,
                );
                lemma_entries_preserved(m_2.mem(), m_a.mem(), t2, t0b as int, t0b + 4096);
                lemma_entries_preserved(
                    m_a.mem(),
                    m_b.mem(),
                    t2,
                    t1 + i1 * 8,
                    t1 + i1 * 8 + 8,
                );
                lemma_entries_preserved(m_b.mem(), m_c.mem(), t2, t1 as int, t1 + 4096);
                lemma_entries_preserved_except(m_c.mem(), m_d.mem(), t2, i2);
                assert forall|j: u64| j < 512 && j != i2 implies (#[trigger] spec_entry_at(
                    m_0.mem(),
                    t2,
                    j,
                )) & A::spec_entry_flag_present() == 0 by {
                    assert(spec_entry_at(m_d.mem(), t2, j) & A::spec_entry_flag_present() == 0);
                    assert(spec_entry_at(m_c.mem(), t2, j) == spec_entry_at(m_d.mem(), t2, j));
                    assert(spec_entry_at(m_b.mem(), t2, j) == spec_entry_at(m_c.mem(), t2, j));
                    assert(spec_entry_at(m_a.mem(), t2, j) == spec_entry_at(m_b.mem(), t2, j));
                    assert(spec_entry_at(m_2.mem(), t2, j) == spec_entry_at(m_a.mem(), t2, j));
                    assert(spec_entry_at(m_0.mem(), t2, j) == spec_entry_at(m_2.mem(), t2, j));
                }
                assert(spec_only_entry::<A>(m_0.mem(), t2, i2));
                assert(rec0 == 3);
            }
            self.tables@ = self.tables@.remove(t2);
        }
        let ghost alloc_2 = self.allocator;
        let _fr2 = self.allocator.free_one(mem, PhysicalAddress::new(t2));
        proof {
            if wf0 {
                assert(_fr2 == mid0.spec_can_free(t2, 1));
                assert(!(t0b <= t2 < t0b + PAGE_SIZE));
                assert(!(t1 <= t2 < t1 + PAGE_SIZE));
                assert(!alloc_2.spec_is_free(t2));
                assert((mid0.spec_can_free(t0b, 1) && mid0.spec_can_free(t1, 1)
                    && mid0.spec_can_free(t2, 1)) ==> self.allocator.spec_used_frames()
                    == mid0.spec_used_frames() - 3);
            }
        }
        mem.write_phys_u64(root + i3 * 8, 0);
        proof {
            if wf0 {
                assert(spec_entry_at(mem.mem(), root, i3) == 0);
                lemma_and_zero(A::spec_entry_flag_present());
                lemma_table_for_unfold::<A>(mem.mem(), root, 3, virt.0);
                assert(spec_table_for::<A>(mem.mem(), root, 3, 0, virt.0) is None);
                assert(spec_walk::<A>(mem.mem(), root_g, virt.0) is None);
            }
        }
    }

    /// Clear the mapping of `virt`: zero the leaf entry and hand back the
    /// frame it pointed to, its flag bits, and the pending flush. With
    /// `unmap_parents`, intermediate tables left without any present entry
    /// are returned to the allocator.
    #[verifier::rlimit(100)]
    pub fn unmap_phys(&mut self, mem: &mut Machine, virt: VirtualAddress, unmap_parents: bool)
        -> (r: Option<(PhysicalAddress, PageFlags<A>, PageFlush)>)
        requires
            old(self).wf_alloc(*old(mem)),
        ensures
            final(self).wf_alloc(*final(mem)),
            final(mem).mem().len() == old(mem).mem().len(),
            final(mem).tlb_map() == old(mem).tlb_map(),
            final(mem).spec_table() == old(mem).spec_table(),
            final(self).spec_table_addr() == old(self).spec_table_addr(),
            r is Some <==> spec_table_for::<A>(
                old(mem).mem(),
                old(self).spec_table_addr(),
                3,
                0,
                virt.0,
            ) is Some,
            !unmap_parents ==> *final(self) == *old(self),
            !unmap_parents ==> (old(self).wf_tables(*old(mem)) ==> final(self).wf_tables(
                *final(mem),
            )),
            forall|ad: u64, ct: u64|
                #[trigger] final(self).spec_allocator().spec_can_free(ad, ct)
                    == old(self).spec_allocator().spec_can_free(ad, ct),
            old(self).wf_tables(*old(mem)) ==> {
                let root = old(self).spec_table_addr();
                let tt0 = spec_table_for::<A>(old(mem).mem(), root, 3, 0, virt.0).unwrap();
                let tt1 = spec_table_for::<A>(old(mem).mem(), root, 3, 1, virt.0).unwrap();
                let tt2 = spec_table_for::<A>(old(mem).mem(), root, 3, 2, virt.0).unwrap();
                forall|f: u64|
                    !(tt0 <= f < tt0 + PAGE_SIZE) && !(tt1 <= f < tt1 + PAGE_SIZE) && !(tt2 <= f
                        < tt2 + PAGE_SIZE)
                        ==> #[trigger] final(self).spec_allocator().spec_is_free(f) == old(
                        self,
                    ).spec_allocator().spec_is_free(f)
            },
            match r {
                Some((p, f, flush)) => {
                    &&& flush.spec_virt() == virt
                    &&& p.0 == A::spec_entry_address(
                        spec_leaf_cell::<A>(
                            old(mem).mem(),
                            old(self).spec_table_addr(),
                            virt.0,
                        ).unwrap(),
                    )
                    &&& f.spec_data() == spec_leaf_cell::<A>(
                        old(mem).mem(),
                        old(self).spec_table_addr(),
                        virt.0,
                    ).unwrap() & A::spec_entry_flags_mask()
                    &&& (old(self).wf_tables(*old(mem)) ==> spec_walk::<A>(
                        final(mem).mem(),
                        old(self).spec_table_addr(),
                        virt.0,
                    ) is None)
                    &&& (unmap_parents && old(self).wf_tables(*old(mem)) ==> {
                        let root = old(self).spec_table_addr();
                        let mid = old(self).spec_allocator();
                        let tt0 = spec_table_for::<A>(old(mem).mem(), root, 3, 0, virt.0).unwrap();
                        let tt1 = spec_table_for::<A>(old(mem).mem(), root, 3, 1, virt.0).unwrap();
                        let tt2 = spec_table_for::<A>(old(mem).mem(), root, 3, 2, virt.0).unwrap();
                        (mid.spec_can_free(tt0, 1) && mid.spec_can_free(tt1, 1)
                            && mid.spec_can_free(tt2, 1))
                            ==> final(self).spec_allocator().spec_used_frames()
                                == mid.spec_used_frames() - spec_tables_reclaimed::<A>(
                                old(mem).mem(), root, virt.0)
                    })
                },
                None => *final(self) == *old(self) && final(mem).mem() == old(mem).mem(),
            },
    {
        let ghost m_0 = *mem;
        let ghost wf0 = old(self).wf_tables(m_0);
        let ghost root_g = self.table_addr.0;
        let t0 = match self.walk_to_leaf(mem, virt) {
            Some(t) => t,
            None => {
                return None;
            },
        };
        let i0: u64 = (virt.0 >> 12u64) & 0x1FF;
        proof {
            mem.lemma_mem_bounded();
            lemma_page_index_bound(virt.0, 12u64);
            assert(spec_page_index(virt.0, 0) == i0);
        }
        let e0 = mem.read_phys_u64(t0 + i0 * 8);
        proof {
            assert(e0 == spec_entry_at(mem.mem(), t0, i0));
        }
        let ghost m_1 = *mem;
        mem.write_phys_u64(t0 + i0 * 8, 0);
        proof {
            if wf0 {
                let tabs = self.tables@;
                assert(tabs.contains_key(t0) && tabs[t0] == 0);
                assert forall|t: u64|
                    #[trigger] tabs.contains_key(t) && tabs[t] > 0 implies (t + PAGE_SIZE <= t0
                    + i0 * 8 || t0 + i0 * 8 + 8 <= t) by {
                    lemma_pages_disjoint(t, t0);
                    assert(t0 + i0 * 8 + 8 <= t0 + PAGE_SIZE);
                }
                lemma_hierarchy_preserved::<A>(
                    m_1.mem(),
                    mem.mem(),
                    tabs,
                    t0 + i0 * 8,
                    t0 + i0 * 8 + 8,
                );
                lemma_table_for_preserved::<A>(
                    m_1.mem(),
                    mem.mem(),
                    tabs,
                    root_g,
                    3,
                    0,
                    virt.0,
                    t0 + i0 * 8,
                    t0 + i0 * 8 + 8,
                );
                lemma_table_for_preserved::<A>(
                    m_1.mem(),
                    mem.mem(),
                    tabs,
                    root_g,
                    3,
                    1,
                    virt.0,
                    t0 + i0 * 8,
                    t0 + i0 * 8 + 8,
                );
                lemma_table_for_preserved::<A>(
                    m_1.mem(),
                    mem.mem(),
                    tabs,
                    root_g,
                    3,
                    2,
                    virt.0,
                    t0 + i0 * 8,
                    t0 + i0 * 8 + 8,
                );
                assert(spec_entry_at(mem.mem(), t0, i0) == 0);
                lemma_and_zero(A::spec_entry_flag_present());
                assert(spec_walk::<A>(mem.mem(), root_g, virt.0) is None);
            }
        }
        let result = Some(
            (
                PhysicalAddress::new(A::entry_address(e0)),
                PageFlags::from_data(e0 & A::entry_flags_mask()),
                PageFlush::new(virt),
            ),
        );
        if !unmap_parents {
            return result;
        }
        proof {
            if wf0 {
                mem.lemma_mem_bounded();
            }
        }
        self.reclaim_parent_tables(mem, virt, t0, Ghost(m_0), Ghost(wf0));
        result
    }

    /// Clear the mapping of `virt` and return its data frame to the
    /// allocator.
    pub fn unmap(&mut self, mem: &mut Machine, virt: VirtualAddress, unmap_parents: bool) -> (r:
        Option<PageFlush>)
        requires
            old(self).wf_alloc(*old(mem)),
        ensures
            final(self).wf_alloc(*final(mem)),
            final(mem).mem().len() == old(mem).mem().len(),
            final(mem).tlb_map() == old(mem).tlb_map(),
            final(mem).spec_table() == old(mem).spec_table(),
            final(self).spec_table_addr() == old(self).spec_table_addr(),
            r is Some <==> spec_table_for::<A>(
                old(mem).mem(),
                old(self).spec_table_addr(),
                3,
                0,
                virt.0,
            ) is Some,
            match r {
                Some(flush) => {
                    let root = old(self).spec_table_addr();
                    let p = A::spec_entry_address(
                        spec_leaf_cell::<A>(old(mem).mem(), root, virt.0).unwrap(),
                    );
                    &&& flush.spec_virt() == virt
                    &&& (!unmap_parents && old(self).wf_tables(*old(mem)) && !old(self).spec_tables().contains_key(p) ==> spec_walk::<A>(
                        final(mem).mem(),
                        root,
                        virt.0,
                    ) is None)
                    &&& (unmap_parents && old(self).wf_tables(*old(mem)) ==> {
                        let root = old(self).spec_table_addr();
                        let mid = old(self).spec_allocator();
                        let tt0 = spec_table_for::<A>(old(mem).mem(), root, 3, 0, virt.0).unwrap();
                        let tt1 = spec_table_for::<A>(old(mem).mem(), root, 3, 1, virt.0).unwrap();
                        let tt2 = spec_table_for::<A>(old(mem).mem(), root, 3, 2, virt.0).unwrap();
                        (mid.spec_can_free(tt0, 1) && mid.spec_can_free(tt1, 1)
                            && mid.spec_can_free(tt2, 1) && mid.spec_can_free(p, 1)
                            && !mid.spec_is_free(p) && !(tt0 <= p < tt0 + PAGE_SIZE) && !(tt1 <= p
                            < tt1 + PAGE_SIZE) && !(tt2 <= p < tt2 + PAGE_SIZE))
                            ==> final(self).spec_allocator().spec_used_frames()
                                == mid.spec_used_frames() - spec_tables_reclaimed::<A>(
                                old(mem).mem(), root, virt.0) - 1
                    })
                    &&& (!unmap_parents ==> {
                        let mid = old(self).spec_allocator();
                        &&& (mid.spec_can_free(p, 1) ==> final(self).spec_allocator().spec_is_free(
                            p,
                        ))
                        &&& (mid.spec_can_free(p, 1) && !mid.spec_is_free(p) ==> final(self).spec_allocator().spec_used_frames() == mid.spec_used_frames() - 1)
                        &&& (!mid.spec_can_free(p, 1) ==> final(self).spec_allocator() == mid)
                    })
                },
                None => *final(self) == *old(self) && final(mem).mem() == old(mem).mem(),
            },
    {
        let ghost m_0 = *mem;
        let ghost self_0 = *self;
        let ghost wf0 = self_0.wf_tables(m_0);
        let ghost root_g = self.table_addr.0;
        match self.unmap_phys(mem, virt, unmap_parents) {
            Some((old_phys, _flags, flush)) => {
                let ghost m_mid = *mem;
                let ghost tabs = self.tables@;
                self.allocator.free_one(mem, old_phys);
                proof {
                    if !unmap_parents && wf0 && !tabs.contains_key(old_phys.0) {
                        // returning the data frame writes only inside its
                        // page, and no table lives there
                        A::lemma_entry_address_bound(
                            spec_leaf_cell::<A>(m_0.mem(), root_g, virt.0).unwrap(),
                        );
                        assert forall|t: u64, j: u64|
                            tabs.contains_key(t) && j < 512 implies #[trigger] spec_entry_at(
                            mem.mem(),
                            t,
                            j,
                        ) == spec_entry_at(m_mid.mem(), t, j) by {
                            lemma_pages_disjoint(t, old_phys.0);
                            assert(t + j * 8 + 8 <= t + PAGE_SIZE);
                        }
                        assert forall|t: u64|
                            #[trigger] tabs.contains_key(t) && tabs[t] > 0 implies (t + PAGE_SIZE
                            <= old_phys.0 || old_phys.0 + PAGE_SIZE <= t) by {
                            lemma_pages_disjoint(t, old_phys.0);
                        }
                        lemma_table_for_preserved::<A>(
                            m_mid.mem(),
                            mem.mem(),
                            tabs,
                            root_g,
                            3,
                            0,
                            virt.0,
                            old_phys.0 as int,
                            old_phys.0 + PAGE_SIZE,
                        );
                        if spec_table_for::<A>(mem.mem(), root_g, 3, 0, virt.0) is Some {
                            let t0 = spec_table_for::<A>(mem.mem(), root_g, 3, 0, virt.0).unwrap();
                            lemma_walk_frames_in_tabs::<A>(
                                m_mid.mem(),
                                tabs,
                                root_g,
                                3,
                                0,
                                virt.0,
                            );
                            lemma_page_index_bound(virt.0, 12u64);
                            assert(spec_entry_at(mem.mem(), t0, spec_page_index(virt.0, 0))
                                == spec_entry_at(m_mid.mem(), t0, spec_page_index(virt.0, 0)));
                        }
                        assert(spec_walk::<A>(mem.mem(), root_g, virt.0) is None);
                    }
                }
                Some(flush)
            },
            None => None,
        }
    }
}

/// Mapping then translating: a leaf holding the encoded entry for a
/// present mapping walks back to exactly the mapped frame and flags.
pub proof fn lemma_map_then_translate<A: Arch>(
    mem: Seq<u8>,
    root: u64,
    virt: u64,
    phys: u64,
    fl: u64,
)
    requires
        spec_leaf_cell::<A>(mem, root, virt) == Some(A::spec_entry_encode(phys, fl)),
        A::spec_frame_ok(phys),
        fl & A::spec_entry_flags_mask() == fl,
        fl & A::spec_entry_flag_present() != 0,
    ensures
        spec_walk::<A>(mem, root, virt) == Some(A::spec_entry_encode(phys, fl)),
        A::spec_entry_address(spec_walk::<A>(mem, root, virt).unwrap()) == phys,
        spec_walk::<A>(mem, root, virt).unwrap() & A::spec_entry_flags_mask() == fl,
{
    A::lemma_constants();
    A::lemma_entry_encode(phys, fl);
    let e = A::spec_entry_encode(phys, fl);
    lemma_and_submask(e, A::spec_entry_flags_mask(), A::spec_entry_flag_present());
    assert(e & A::spec_entry_flag_present() == fl & A::spec_entry_flag_present());
}

/// Table reuse: two addresses that agree on every non-leaf index share the
/// whole path of intermediate tables, so after the first is mapped, mapping
/// the second allocates nothing.
pub proof fn lemma_table_reuse<A: Arch>(mem: Seq<u8>, root: u64, v1: u64, v2: u64)
    requires
        spec_page_index(v1, 3) == spec_page_index(v2, 3),
        spec_page_index(v1, 2) == spec_page_index(v2, 2),
        spec_page_index(v1, 1) == spec_page_index(v2, 1),
    ensures
        spec_table_for::<A>(mem, root, 3, 0, v1) == spec_table_for::<A>(mem, root, 3, 0, v2),
{
    lemma_table_for_unfold::<A>(mem, root, 3, v1);
    lemma_table_for_unfold::<A>(mem, root, 3, v2);
    if spec_table_in_bounds(mem, root) {
        let e3 = spec_entry_at(mem, root, spec_page_index(v1, 3));
        if e3 & A::spec_entry_flag_present() != 0 {
            let t2 = A::spec_entry_address(e3);
            lemma_table_for_unfold::<A>(mem, t2, 2, v1);
            lemma_table_for_unfold::<A>(mem, t2, 2, v2);
            if spec_table_in_bounds(mem, t2) {
                let e2 = spec_entry_at(mem, t2, spec_page_index(v1, 2));
                if e2 & A::spec_entry_flag_present() != 0 {
                    let t1 = A::spec_entry_address(e2);
                    lemma_table_for_unfold::<A>(mem, t1, 1, v1);
                    lemma_table_for_unfold::<A>(mem, t1, 1, v2);
                }
            }
        }
    }
}

} // verus!
