//! The bump allocator: a monotonic cursor over the boot-provided region
//! list, the only allocator usable before any frame metadata exists. Its
//! placement is fully determined: an allocation comes from the cursor's
//! byte position in the concatenation of the areas, and only when the
//! current area still holds the whole run.

use vstd::prelude::*;

verus! {

use crate::MemoryArea;
use crate::PAGE_SIZE;
use crate::PhysicalAddress;
use crate::allocator::FrameAllocator;
use crate::allocator::FrameCount;
use crate::allocator::FrameUsage;
use crate::machine::Machine;

/// Boot-provided areas: page-aligned, sized in whole pages, inside the
/// machine's RAM, and pairwise disjoint.
pub open spec fn spec_areas_wf(areas: Seq<MemoryArea>, mem_len: int) -> bool {
    &&& forall|i: int|
        0 <= i < areas.len() ==> (#[trigger] areas[i]).base.0 % PAGE_SIZE == 0 && areas[i].size
            % PAGE_SIZE == 0 && areas[i].size > 0 && areas[i].base.0 + areas[i].size <= mem_len
    &&& forall|i: int, j: int|
        0 <= i < areas.len() && 0 <= j < areas.len() && i != j ==> (#[trigger] areas[i]).base.0
            + areas[i].size <= (#[trigger] areas[j]).base.0 || areas[j].base.0 + areas[j].size
            <= areas[i].base.0
    &&& spec_areas_size(areas) <= mem_len
}

/// Total number of bytes in the concatenation of the areas.
pub open spec fn spec_areas_size(areas: Seq<MemoryArea>) -> int
    decreases areas.len(),
{
    if areas.len() == 0 {
        0
    } else {
        areas[0].size + spec_areas_size(areas.drop_first())
    }
}

/// The physical address of byte `offset` of the concatenation of the areas.
pub open spec fn spec_concat_addr(areas: Seq<MemoryArea>, offset: int) -> Option<u64>
    decreases areas.len(),
{
    if areas.len() == 0 {
        None
    } else if offset < areas[0].size {
        Some((areas[0].base.0 + offset) as u64)
    } else {
        spec_concat_addr(areas.drop_first(), offset - areas[0].size)
    }
}

/// Whether the area holding byte `offset` still holds `bytes` more bytes.
pub open spec fn spec_bump_fits(areas: Seq<MemoryArea>, offset: int, bytes: int) -> bool
    decreases areas.len(),
{
    if areas.len() == 0 {
        false
    } else if offset < areas[0].size {
        offset + bytes <= areas[0].size
    } else {
        spec_bump_fits(areas.drop_first(), offset - areas[0].size, bytes)
    }
}

/// Whether the frame at `f` lies past the cursor `offset` in the
/// concatenation of the areas: such frames have not been handed out.
pub open spec fn spec_bump_is_free(areas: Seq<MemoryArea>, offset: int, f: u64) -> bool
    decreases areas.len(),
{
    if areas.len() == 0 {
        false
    } else {
        let a = areas[0];
        let inside = a.base.0 <= f && f + PAGE_SIZE <= a.base.0 + a.size && (f - a.base.0)
            % (PAGE_SIZE as int) == 0;
        if offset >= a.size {
            if inside {
                false
            } else {
                spec_bump_is_free(areas.drop_first(), offset - a.size, f)
            }
        } else {
            if inside {
                f - a.base.0 >= offset
            } else {
                spec_bump_is_free(areas.drop_first(), 0, f)
            }
        }
    }
}

/// Well-formedness carries to the tail of the region list.
pub(crate) proof fn lemma_areas_wf_drop(areas: Seq<MemoryArea>, mem_len: int)
    requires
        spec_areas_wf(areas, mem_len),
        areas.len() > 0,
    ensures
        spec_areas_wf(areas.drop_first(), mem_len),
{
    let rest = areas.drop_first();
    assert forall|i: int|
        0 <= i < rest.len() implies (#[trigger] rest[i]).base.0 % PAGE_SIZE == 0 && rest[i].size
        % PAGE_SIZE == 0 && rest[i].size > 0 && rest[i].base.0 + rest[i].size <= mem_len by {
        assert(rest[i] == areas[i + 1]);
    }
    assert forall|i: int, j: int|
        0 <= i < rest.len() && 0 <= j < rest.len() && i != j implies (#[trigger] rest[i]).base.0
        + rest[i].size <= (#[trigger] rest[j]).base.0 || rest[j].base.0 + rest[j].size
        <= rest[i].base.0 by {
        assert(rest[i] == areas[i + 1]);
        assert(rest[j] == areas[j + 1]);
    }
    assert(spec_areas_size(areas) == areas[0].size + spec_areas_size(rest));
}

/// A free frame always lies wholly inside one of the areas.
pub(crate) proof fn lemma_free_in_some_area(areas: Seq<MemoryArea>, offset: int, f: u64)
    requires
        spec_bump_is_free(areas, offset, f),
    ensures
        exists|i: int|
            0 <= i < areas.len() && (#[trigger] areas[i]).base.0 <= f && f + PAGE_SIZE
                <= areas[i].base.0 + areas[i].size && (f - areas[i].base.0) % (PAGE_SIZE as int)
                == 0,
    decreases areas.len(),
{
    let a = areas[0];
    let inside = a.base.0 <= f && f + PAGE_SIZE <= a.base.0 + a.size && (f - a.base.0) % (
    PAGE_SIZE as int) == 0;
    if inside {
        assert(areas[0].base.0 <= f && f + PAGE_SIZE <= areas[0].base.0 + areas[0].size && (f
            - areas[0].base.0) % (PAGE_SIZE as int) == 0);
    } else {
        if offset >= a.size {
            lemma_free_in_some_area(areas.drop_first(), offset - a.size, f);
        } else {
            lemma_free_in_some_area(areas.drop_first(), 0, f);
        }
        let i = choose|i: int|
            0 <= i < areas.drop_first().len() && (#[trigger] areas.drop_first()[i]).base.0 <= f && f
                + PAGE_SIZE <= areas.drop_first()[i].base.0 + areas.drop_first()[i].size && (f
                - areas.drop_first()[i].base.0) % (PAGE_SIZE as int) == 0;
        assert(areas[i + 1] == areas.drop_first()[i]);
        assert(areas[i + 1].base.0 <= f && f + PAGE_SIZE <= areas[i + 1].base.0 + areas[i + 1].size
            && (f - areas[i + 1].base.0) % (PAGE_SIZE as int) == 0);
    }
}

/// What one successful bump step does: the run starts at the cursor's
/// concatenation address, its frames were free, and exactly they stop
/// being free when the cursor advances past them.
proof fn lemma_bump_step(areas: Seq<MemoryArea>, offset: int, bytes: int, mem_len: int)
    requires
        spec_areas_wf(areas, mem_len),
        mem_len <= u64::MAX,
        0 <= offset,
        offset % (PAGE_SIZE as int) == 0,
        bytes % (PAGE_SIZE as int) == 0,
        bytes > 0,
        spec_bump_fits(areas, offset, bytes),
    ensures
        spec_concat_addr(areas, offset) is Some,
        ({
            let p = spec_concat_addr(areas, offset).unwrap();
            &&& p % PAGE_SIZE == 0
            &&& p + bytes <= mem_len
            &&& forall|j: int|
                0 <= j < bytes / (PAGE_SIZE as int) ==> spec_bump_is_free(
                    areas,
                    offset,
                    #[trigger] ((p + j * PAGE_SIZE) as u64),
                )
            &&& forall|f: u64|
                #[trigger] spec_bump_is_free(areas, offset + bytes, f) <==> (spec_bump_is_free(
                    areas,
                    offset,
                    f,
                ) && !(p <= f < p + bytes))
        }),
    decreases areas.len(),
{
    let a = areas[0];
    let rest = areas.drop_first();
    lemma_areas_wf_drop(areas, mem_len);
    if offset >= a.size {
        lemma_bump_step(rest, offset - a.size, bytes, mem_len);
        let p = spec_concat_addr(rest, (offset - a.size) as int).unwrap();
        assert(spec_concat_addr(areas, offset) == Some(p));
        assert forall|j: int|
            0 <= j < bytes / (PAGE_SIZE as int) implies spec_bump_is_free(
            areas,
            offset,
            #[trigger] ((p + j * PAGE_SIZE) as u64),
        ) by {
            let f = (p + j * PAGE_SIZE) as u64;
            assert(spec_bump_is_free(rest, offset - a.size, f));
            lemma_free_in_some_area(rest, offset - a.size, f);
            let i = choose|i: int|
                0 <= i < rest.len() && (#[trigger] rest[i]).base.0 <= f && f + PAGE_SIZE
                    <= rest[i].base.0 + rest[i].size;
            assert(rest[i] == areas[i + 1]);
            assert(a.base.0 + a.size <= areas[i + 1].base.0 || areas[i + 1].base.0 + areas[i
                + 1].size <= a.base.0);
            assert(!(a.base.0 <= f && f + PAGE_SIZE <= a.base.0 + a.size));
        }
        assert forall|f: u64|
            #[trigger] spec_bump_is_free(areas, offset + bytes, f) <==> (spec_bump_is_free(
            areas,
            offset,
            f,
        ) && !(p <= f < p + bytes)) by {
            let inside = a.base.0 <= f && f + PAGE_SIZE <= a.base.0 + a.size && (f - a.base.0) % (
            PAGE_SIZE as int) == 0;
            if inside {
                assert(!spec_bump_is_free(areas, offset + bytes, f));
                assert(!spec_bump_is_free(areas, offset, f));
            } else {
                assert(spec_bump_is_free(areas, offset + bytes, f) == spec_bump_is_free(
                    rest,
                    offset - a.size + bytes,
                    f,
                ));
                assert(spec_bump_is_free(areas, offset, f) == spec_bump_is_free(
                    rest,
                    offset - a.size,
                    f,
                ));
            }
        }
    } else {
        let p: u64 = (a.base.0 + offset) as u64;
        assert(a.base.0 + offset <= mem_len);
        assert(spec_concat_addr(areas, offset) == Some(p));
        assert(p + bytes <= a.base.0 + a.size <= mem_len);
        assert(p % PAGE_SIZE == 0) by (nonlinear_arith)
            requires
                p == a.base.0 + offset,
                a.base.0 % PAGE_SIZE == 0,
                offset % (PAGE_SIZE as int) == 0,
                PAGE_SIZE == 4096,
        ;
        assert forall|j: int|
            0 <= j < bytes / (PAGE_SIZE as int) implies spec_bump_is_free(
            areas,
            offset,
            #[trigger] ((p + j * PAGE_SIZE) as u64),
        ) by {
            assert(0 <= j * PAGE_SIZE && j * PAGE_SIZE + PAGE_SIZE <= bytes) by (nonlinear_arith)
                requires
                    0 <= j < bytes / (PAGE_SIZE as int),
                    bytes % (PAGE_SIZE as int) == 0,
                    PAGE_SIZE == 4096,
            ;
            let f = (p + j * PAGE_SIZE) as u64;
            assert(f == p + j * PAGE_SIZE);
            assert(f - a.base.0 == offset + j * PAGE_SIZE);
            assert((f - a.base.0) % (PAGE_SIZE as int) == 0) by (nonlinear_arith)
                requires
                    f - a.base.0 == offset + j * PAGE_SIZE,
                    offset % (PAGE_SIZE as int) == 0,
                    PAGE_SIZE == 4096,
            ;
            assert(f + PAGE_SIZE <= a.base.0 + a.size);
            assert(f - a.base.0 >= offset);
        }
        assert forall|f: u64|
            #[trigger] spec_bump_is_free(areas, offset + bytes, f) <==> (spec_bump_is_free(
            areas,
            offset,
            f,
        ) && !(p <= f < p + bytes)) by {
            let inside = a.base.0 <= f && f + PAGE_SIZE <= a.base.0 + a.size && (f - a.base.0) % (
            PAGE_SIZE as int) == 0;
            if inside {
                let rel = f - a.base.0;
                assert(p <= f < p + bytes <==> offset <= rel < offset + bytes);
                if offset + bytes >= a.size {
                    assert(!spec_bump_is_free(areas, offset + bytes, f));
                    assert(rel + PAGE_SIZE <= a.size);
                    assert(rel < offset + bytes);
                } else {
                    assert(spec_bump_is_free(areas, offset + bytes, f) == (rel >= offset + bytes));
                }
            } else {
                let lhs_rest_off: int = if offset + bytes >= a.size {
                    offset + bytes - a.size
                } else {
                    0
                };
                assert(offset + bytes <= a.size);
                assert(spec_bump_is_free(areas, offset + bytes, f) == spec_bump_is_free(
                    rest,
                    lhs_rest_off,
                    f,
                ));
                assert(lhs_rest_off == 0 || offset + bytes == a.size);
                if offset + bytes == a.size {
                    assert(spec_bump_is_free(areas, offset + bytes, f) == spec_bump_is_free(
                        rest,
                        0,
                        f,
                    ));
                }
                assert(spec_bump_is_free(areas, offset, f) == spec_bump_is_free(rest, 0, f));
                if spec_bump_is_free(rest, 0, f) {
                    lemma_free_in_some_area(rest, 0, f);
                    let i = choose|i: int|
                        0 <= i < rest.len() && (#[trigger] rest[i]).base.0 <= f && f + PAGE_SIZE
                            <= rest[i].base.0 + rest[i].size;
                    assert(rest[i] == areas[i + 1]);
                    assert(a.base.0 + a.size <= areas[i + 1].base.0 || areas[i + 1].base.0
                        + areas[i + 1].size <= a.base.0);
                    assert(!(p <= f < p + bytes));
                }
            }
        }
    }
}

/// The monotonic boot allocator: the boot areas and a byte cursor over
/// their concatenation.
pub struct BumpAllocator {
    areas: Vec<MemoryArea>,
    offset: u64,
}

impl BumpAllocator {
    pub closed spec fn spec_areas(self) -> Seq<MemoryArea> {
        self.areas@
    }

    pub closed spec fn spec_offset(self) -> u64 {
        self.offset
    }

    pub fn new(areas: Vec<MemoryArea>, offset: u64) -> (r: Self)
        requires
            offset % PAGE_SIZE == 0,
            offset <= spec_areas_size(areas@),
        ensures
            r.spec_areas() == areas@,
            r.spec_offset() == offset,
    {
        Self { areas, offset }
    }

    /// The boot-provided region list.
    pub fn areas(&self) -> (r: &Vec<MemoryArea>)
        ensures
            r@ == self.spec_areas(),
    {
        &self.areas
    }

    /// The cursor: how many bytes of the concatenation are consumed.
    pub fn offset(&self) -> (r: u64)
        ensures
            r == self.spec_offset(),
    {
        self.offset
    }
}


impl FrameAllocator for BumpAllocator {
    open spec fn inv(&self, mem_len: int) -> bool {
        &&& spec_areas_wf(self.spec_areas(), mem_len)
        &&& self.spec_offset() % PAGE_SIZE == 0
        &&& self.spec_offset() <= spec_areas_size(self.spec_areas())
    }

    open spec fn spec_is_free(&self, frame: u64) -> bool {
        spec_bump_is_free(self.spec_areas(), self.spec_offset() as int, frame)
    }

    open spec fn spec_total_frames(&self) -> int {
        spec_areas_size(self.spec_areas()) / (PAGE_SIZE as int)
    }

    open spec fn spec_used_frames(&self) -> int {
        self.spec_offset() as int / (PAGE_SIZE as int)
    }

    open spec fn spec_allocate(&self, count: u64) -> Option<u64> {
        if count >= 1 && spec_bump_fits(
            self.spec_areas(),
            self.spec_offset() as int,
            count * (PAGE_SIZE as int),
        ) {
            spec_concat_addr(self.spec_areas(), self.spec_offset() as int)
        } else {
            None
        }
    }

    open spec fn spec_can_free(&self, address: u64, count: u64) -> bool {
        false
    }

    open spec fn spec_usage_wf(&self) -> bool {
        &&& self.spec_offset() <= spec_areas_size(self.spec_areas())
        &&& spec_areas_size(self.spec_areas()) <= u64::MAX
    }

    open spec fn spec_layout(&self) -> Seq<MemoryArea> {
        self.spec_areas()
    }

    fn allocate(&mut self, mem: &mut Machine, count: FrameCount) -> (r: Option<PhysicalAddress>) {
        let ghost mem_len = mem.mem().len() as int;
        let ghost full = self.areas@;
        let ghost start = self.offset as int;
        let mem_size: usize = mem.memory_size();
        proof {
            assert(mem_len <= u64::MAX);
        }
        if count.0 == 0 {
            return None;
        }
        proof {
            assert(full.skip(0) =~= full);
        }
        let mut off: u64 = self.offset;
        let mut idx: usize = 0;
        let ghost consumed: int = 0;
        while idx < self.areas.len()
            invariant
                self == old(self),
                *mem == *old(mem),
                old(self).inv(mem_len),
                mem_len == mem.mem().len() as int,
                mem_len <= u64::MAX,
                full == self.areas@,
                start == self.offset as int,
                count.0 >= 1,
                idx <= self.areas.len(),
                consumed + off == start,
                0 <= consumed,
                off % PAGE_SIZE == 0,
                spec_areas_size(full) == consumed + spec_areas_size(full.skip(idx as int)),
                spec_concat_addr(full, start) == spec_concat_addr(
                    full.skip(idx as int),
                    off as int,
                ),
                forall|b: int|
                    spec_bump_fits(full, start, b) == spec_bump_fits(
                        full.skip(idx as int),
                        off as int,
                        b,
                    ),
            decreases self.areas.len() - idx,
        {
            let ghost suffix = full.skip(idx as int);
            proof {
                assert(suffix.drop_first() =~= full.skip(idx as int + 1));
                assert(suffix[0] == full[idx as int]);
            }
            let a = self.areas[idx];
            if off < a.size {
                let remaining: u64 = (a.size - off) / PAGE_SIZE;
                if remaining < count.0 {
                    proof {
                        assert(count.0 * (PAGE_SIZE as int) > a.size - off) by (nonlinear_arith)
                            requires
                                remaining == (a.size - off) / (PAGE_SIZE as int),
                                remaining < count.0,
                                PAGE_SIZE == 4096,
                                a.size - off >= 0,
                        ;
                        assert(!spec_bump_fits(suffix, off as int, count.0 * (PAGE_SIZE as int)));
                    }
                    return None;
                }
                proof {
                    assert(count.0 * (PAGE_SIZE as int) <= a.size - off) by (nonlinear_arith)
                        requires
                            remaining == (a.size - off) / (PAGE_SIZE as int),
                            count.0 <= remaining,
                            PAGE_SIZE == 4096,
                            (a.size - off) % (PAGE_SIZE as int) == 0,
                            a.size - off >= 0,
                    ;
                }
                let bytes: u64 = count.0 * PAGE_SIZE;
                let page: u64 = a.base.0 + off;
                proof {
                    assert(spec_bump_fits(suffix, off as int, bytes as int));
                    assert(spec_bump_fits(full, start, bytes as int));
                    assert(spec_concat_addr(suffix, off as int) == Some(page));
                    lemma_bump_step(full, start, bytes as int, mem_len);
                    assert(bytes as int % (PAGE_SIZE as int) == 0) by (nonlinear_arith)
                        requires
                            bytes == count.0 * PAGE_SIZE,
                            PAGE_SIZE == 4096,
                    ;
                    assert(start + bytes <= spec_areas_size(full)) by {
                        assert(off + bytes <= a.size);
                        lemma_areas_size_nonneg(suffix.drop_first());
                        assert(spec_areas_size(suffix) == a.size + spec_areas_size(
                            suffix.drop_first(),
                        ));
                    }
                }
                mem.zero_phys(page, bytes);
                self.offset = self.offset + bytes;
                proof {
                    assert(self.offset as int % (PAGE_SIZE as int) == 0);
                    assert(self.offset as int / (PAGE_SIZE as int) == start / (PAGE_SIZE as int)
                        + count.0) by (nonlinear_arith)
                        requires
                            self.offset == start + count.0 * PAGE_SIZE,
                            start % (PAGE_SIZE as int) == 0,
                            PAGE_SIZE == 4096,
                            start >= 0,
                            count.0 >= 0,
                    ;
                    assert forall|j: int| 0 <= j < count.0 implies old(self).spec_is_free(
                        #[trigger] ((page + j * PAGE_SIZE) as u64),
                    ) && !self.spec_is_free((page + j * PAGE_SIZE) as u64) by {
                        assert(spec_bump_is_free(full, start, (page + j * PAGE_SIZE) as u64));
                        assert(page <= page + j * PAGE_SIZE < page + bytes) by (nonlinear_arith)
                            requires
                                0 <= j < count.0,
                                bytes == count.0 * PAGE_SIZE,
                                PAGE_SIZE == 4096,
                        ;
                    }
                }
                return Some(PhysicalAddress::new(page));
            }
            proof {
                assert(!(off < a.size));
                assert(spec_concat_addr(suffix, off as int) == spec_concat_addr(
                    suffix.drop_first(),
                    off - a.size,
                ));
            }
            off = off - a.size;
            idx = idx + 1;
            proof {
                consumed = consumed + a.size;
                assert(full.skip(idx - 1 as int).drop_first() =~= full.skip(idx as int));
            }
        }
        proof {
            assert(full.skip(idx as int).len() == 0);
            assert(!spec_bump_fits(full, start, count.0 * (PAGE_SIZE as int)));
        }
        None
    }

    fn free(&mut self, mem: &mut Machine, address: PhysicalAddress, count: FrameCount) -> (r:
        bool) {
        false
    }

    fn allocate_one(&mut self, mem: &mut Machine) -> (r: Option<PhysicalAddress>) {
        let r = self.allocate(mem, FrameCount::new(1));
        proof {
            if let Some(p) = r {
                assert((p.0 + 0 * PAGE_SIZE) as u64 == p.0);
            }
        }
        r
    }

    fn free_one(&mut self, mem: &mut Machine, address: PhysicalAddress) -> (r: bool) {
        false
    }

    fn usage(&self) -> (r: FrameUsage) {
        let ghost full = self.areas@;
        proof {
            assert(full.skip(0) =~= full);
            lemma_areas_size_nonneg(full);
            assert(self.spec_used_frames() <= self.spec_total_frames()) by (nonlinear_arith)
                requires
                    self.spec_used_frames() == self.spec_offset() as int / (PAGE_SIZE as int),
                    self.spec_total_frames() == spec_areas_size(self.spec_areas()) / (
                    PAGE_SIZE as int),
                    self.spec_offset() <= spec_areas_size(self.spec_areas()),
                    PAGE_SIZE == 4096,
            ;
            assert(self.spec_total_frames() <= u64::MAX) by (nonlinear_arith)
                requires
                    self.spec_total_frames() == spec_areas_size(self.spec_areas()) / (
                    PAGE_SIZE as int),
                    0 <= spec_areas_size(self.spec_areas()) <= u64::MAX,
                    PAGE_SIZE == 4096,
            ;
        }
        let mut total_bytes: u64 = 0;
        let mut idx: usize = 0;
        while idx < self.areas.len()
            invariant
                full == self.areas@,
                self.spec_usage_wf(),
                idx <= self.areas.len(),
                total_bytes == spec_areas_size(full) - spec_areas_size(full.skip(idx as int)),
                spec_areas_size(full.skip(idx as int)) >= 0,
                spec_areas_size(full) <= u64::MAX,
            decreases self.areas.len() - idx,
        {
            proof {
                assert(full.skip(idx as int).drop_first() =~= full.skip(idx as int + 1));
                assert(full.skip(idx as int)[0] == full[idx as int]);
                lemma_areas_size_nonneg(full.skip(idx as int + 1));
            }
            let a = self.areas[idx];
            total_bytes = total_bytes + a.size;
            idx = idx + 1;
        }
        proof {
            assert(full.skip(idx as int).len() == 0);
            assert(total_bytes == spec_areas_size(full));
        }
        let used_frames: u64 = self.offset / PAGE_SIZE;
        let total_frames: u64 = total_bytes / PAGE_SIZE;
        proof {
            assert(used_frames <= total_frames) by (nonlinear_arith)
                requires
                    used_frames == self.offset as int / (PAGE_SIZE as int),
                    total_frames == total_bytes as int / (PAGE_SIZE as int),
                    self.offset <= total_bytes,
                    PAGE_SIZE == 4096,
            ;
        }
        FrameUsage::new(FrameCount::new(used_frames), FrameCount::new(total_frames))
    }
}

/// The concatenation of areas never has negative size.
pub(crate) proof fn lemma_areas_size_nonneg(areas: Seq<MemoryArea>)
    ensures
        spec_areas_size(areas) >= 0,
    decreases areas.len(),
{
    if areas.len() > 0 {
        lemma_areas_size_nonneg(areas.drop_first());
    }
}


/// Bump linearity: what a successful allocation hands out is the cursor's
/// own byte position in the concatenation of the areas; the ensures of
/// `allocate` then advance the cursor by exactly the run's frames.
pub proof fn lemma_bump_linearity(b: BumpAllocator, count: u64)
    requires
        b.spec_allocate(count) is Some,
    ensures
        b.spec_allocate(count) == spec_concat_addr(b.spec_areas(), b.spec_offset() as int),
{
}

} // verus!
