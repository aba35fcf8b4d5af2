//! The buddy frame allocator: per-region bitmap free maps supporting
//! multi-frame contiguous allocation. One table page lists the coalesced
//! regions; each region owns a chain of bitmap pages carved from the
//! regions themselves, a set bit meaning the frame is free. Placement is
//! first-fit over the bit stream, lowest frame first, and the number of
//! set bits always equals the number of frames not handed out.

use vstd::prelude::*;

verus! {

use crate::MemoryArea;
use crate::PAGE_SIZE;
use crate::PhysicalAddress;
use crate::allocator::FrameAllocator;
use crate::allocator::FrameCount;
use crate::allocator::FrameUsage;
use crate::allocator::bump::BumpAllocator;
use crate::allocator::bump::lemma_areas_size_nonneg;
use crate::allocator::bump::lemma_areas_wf_drop;
use crate::allocator::bump::lemma_free_in_some_area;
use crate::allocator::bump::spec_bump_is_free;
use crate::allocator::bump::spec_areas_size;
use crate::allocator::bump::spec_bump_fits;
use crate::allocator::bump::spec_concat_addr;
use crate::allocator::bump::spec_areas_wf;
use crate::machine::Machine;

/// Number of region slots one table page holds.
pub const BUDDY_ENTRIES: u64 = 170;

/// Bitmap bytes in one map page, the rest being its footer link.
pub const MAP_PAGE_BYTES: u64 = 4088;

/// Frames one map page covers.
pub const MAP_PAGE_BITS: u64 = 32704;

/// One contiguous physical region after coalescing, with the head of its
/// chain of bitmap pages.
#[derive(Clone, Copy, Debug, Eq, PartialEq, Structural)]
pub struct BuddyEntry {
    pub base: PhysicalAddress,
    pub size: u64,
    pub map: PhysicalAddress,
}

/// Bit `idx` of the bitmap byte stream.
pub open spec fn spec_bit(bits: Seq<u8>, idx: int) -> bool {
    ((bits[idx / 8] as u64) >> ((idx % 8) as u64)) & 1 == 1
}

/// Number of set bits among the first `n` of the stream.
pub open spec fn spec_count_prefix(bits: Seq<u8>, n: int) -> int
    decreases n,
{
    if n <= 0 {
        0
    } else {
        spec_count_prefix(bits, n - 1) + if spec_bit(bits, n - 1) {
            1int
        } else {
            0int
        }
    }
}

/// `count` consecutive set bits starting at `s`.
pub open spec fn spec_run_at(bits: Seq<u8>, s: int, count: int) -> bool {
    forall|k: int| 0 <= k < count ==> #[trigger] spec_bit(bits, s + k)
}

/// The lowest start of a free run of `count` frames at or after `from`.
pub open spec fn spec_first_fit(bits: Seq<u8>, pages: int, count: int, from: int) -> Option<int>
    decreases pages - from,
{
    if count < 1 || from + count > pages {
        None
    } else if spec_run_at(bits, from, count) {
        Some(from)
    } else {
        spec_first_fit(bits, pages, count, from + 1)
    }
}

/// A prefix count never exceeds its length and never drops below zero.
proof fn lemma_count_prefix_bounds(bits: Seq<u8>, n: int)
    ensures
        0 <= spec_count_prefix(bits, n) <= if n >= 0 {
            n
        } else {
            0
        },
    decreases n,
{
    if n > 0 {
        lemma_count_prefix_bounds(bits, n - 1);
    }
}

/// Two streams equal on every bit below `n` have the same prefix count.
proof fn lemma_count_prefix_congruent(b1: Seq<u8>, b2: Seq<u8>, n: int)
    requires
        forall|idx: int| 0 <= idx < n ==> spec_bit(b2, idx) == spec_bit(b1, idx),
    ensures
        spec_count_prefix(b2, n) == spec_count_prefix(b1, n),
    decreases n,
{
    if n > 0 {
        lemma_count_prefix_congruent(b1, b2, n - 1);
    }
}

/// Setting one clear bit below `n` raises the prefix count by one;
/// clearing one set bit lowers it by one.
proof fn lemma_count_prefix_flip(b1: Seq<u8>, b2: Seq<u8>, n: int, idx: int)
    requires
        0 <= idx < n,
        forall|j: int| 0 <= j < n && j != idx ==> spec_bit(b2, j) == spec_bit(b1, j),
        spec_bit(b2, idx) != spec_bit(b1, idx),
    ensures
        spec_count_prefix(b2, n) == spec_count_prefix(b1, n) + (if spec_bit(b2, idx) {
            1int
        } else {
            -1int
        }),
    decreases n,
{
    if n - 1 == idx {
        lemma_count_prefix_congruent(b1, b2, n - 1);
    } else {
        lemma_count_prefix_flip(b1, b2, n - 1, idx);
    }
}

/// A found run with nothing before it is exactly what first-fit returns.
proof fn lemma_first_fit_found(bits: Seq<u8>, pages: int, count: int, start: int)
    requires
        1 <= count,
        0 <= start,
        start + count <= pages,
        spec_run_at(bits, start, count),
        forall|s: int| 0 <= s < start ==> !spec_run_at(bits, s, count),
    ensures
        spec_first_fit(bits, pages, count, 0) == Some(start),
{
    lemma_first_fit_from(bits, pages, count, 0, start);
}

proof fn lemma_first_fit_from(bits: Seq<u8>, pages: int, count: int, from: int, start: int)
    requires
        1 <= count,
        0 <= from <= start,
        start + count <= pages,
        spec_run_at(bits, start, count),
        forall|s: int| from <= s < start ==> !spec_run_at(bits, s, count),
    ensures
        spec_first_fit(bits, pages, count, from) == Some(start),
    decreases start - from,
{
    if from < start {
        lemma_first_fit_from(bits, pages, count, from + 1, start);
    }
}

/// No run anywhere means first-fit finds nothing.
proof fn lemma_first_fit_none(bits: Seq<u8>, pages: int, count: int, from: int)
    requires
        forall|s: int| from <= s && s + count <= pages ==> !spec_run_at(bits, s, count),
    ensures
        spec_first_fit(bits, pages, count, from) is None,
    decreases pages - from,
{
    if !(count < 1 || from + count > pages) {
        lemma_first_fit_none(bits, pages, count, from + 1);
    }
}

/// Setting bit `k` of a byte: that bit becomes one, the others keep.
proof fn lemma_byte_set(b: u8, k: u64)
    requires
        k < 8,
    ensures
        (((b | (1u8 << k)) as u64) >> k) & 1 == 1,
        forall|j: u64|
            j < 8 && j != k ==> #[trigger] ((((b | (1u8 << k)) as u64) >> j) & 1) == ((
            b as u64) >> j) & 1,
{
    assert((((b | (1u8 << k)) as u64) >> k) & 1 == 1 && (forall|j: u64|
        j < 8 && j != k ==> #[trigger] ((((b | (1u8 << k)) as u64) >> j) & 1) == ((b as u64) >> j)
            & 1)) by (bit_vector)
        requires
            k < 8,
    ;
}

/// Clearing bit `k` of a byte: that bit becomes zero, the others keep.
proof fn lemma_byte_clear(b: u8, k: u64)
    requires
        k < 8,
    ensures
        (((b & !(1u8 << k)) as u64) >> k) & 1 == 0,
        forall|j: u64|
            j < 8 && j != k ==> #[trigger] ((((b & !(1u8 << k)) as u64) >> j) & 1) == ((
            b as u64) >> j) & 1,
{
    assert((((b & !(1u8 << k)) as u64) >> k) & 1 == 0 && (forall|j: u64|
        j < 8 && j != k ==> #[trigger] ((((b & !(1u8 << k)) as u64) >> j) & 1) == ((b as u64) >> j)
            & 1)) by (bit_vector)
        requires
            k < 8,
    ;
}

/// A bit either is or is not set; testing it reads one of those two.
proof fn lemma_bit_value(b: u8, k: u64)
    requires
        k < 8,
    ensures
        ((b as u64) >> k) & 1 == 0 || ((b as u64) >> k) & 1 == 1,
{
    assert(((b as u64) >> k) & 1 == 0 || ((b as u64) >> k) & 1 == 1) by (bit_vector);
}


/// Bitmap pages one region needs.
pub open spec fn spec_map_pages(e: BuddyEntry) -> int {
    (spec_entry_pages(e) + (MAP_PAGE_BITS - 1)) / (MAP_PAGE_BITS as int)
}

/// Bitmap pages the first `n` regions need together.
pub open spec fn spec_meta_upto(entries: Seq<BuddyEntry>, n: int) -> int
    decreases n,
{
    if n <= 0 {
        0
    } else {
        spec_meta_upto(entries, n - 1) + spec_map_pages(entries[n - 1])
    }
}

/// Whether the bump allocator can carve `frames` single frames in a row
/// starting at `offset`.
pub open spec fn spec_bump_can_carve(areas: Seq<MemoryArea>, offset: int, frames: int) -> bool
    decreases frames,
{
    if frames <= 0 {
        true
    } else {
        spec_bump_fits(areas, offset, PAGE_SIZE as int) && spec_bump_can_carve(
            areas,
            offset + PAGE_SIZE,
            frames - 1,
        )
    }
}

/// The metadata frames construction carves: the table page plus every
/// coalesced region's bitmap pages.
pub open spec fn spec_metadata_frames(areas: Seq<MemoryArea>) -> int {
    1 + spec_meta_upto(
        spec_coalesce(areas, areas.len() as int),
        spec_coalesce(areas, areas.len() as int).len() as int,
    )
}

proof fn lemma_carve_extend(areas: Seq<MemoryArea>, offset: int, c: int)
    requires
        0 <= c,
        spec_bump_can_carve(areas, offset, c),
        spec_bump_fits(areas, offset + c * PAGE_SIZE, PAGE_SIZE as int),
    ensures
        spec_bump_can_carve(areas, offset, c + 1),
    decreases c,
{
    if c > 0 {
        assert(spec_bump_fits(areas, offset, PAGE_SIZE as int));
        assert((offset + PAGE_SIZE) + (c - 1) * PAGE_SIZE == offset + c * PAGE_SIZE);
        lemma_carve_extend(areas, offset + PAGE_SIZE, c - 1);
        assert(spec_bump_can_carve(areas, offset + PAGE_SIZE, c));
    } else {
        assert(offset + c * PAGE_SIZE == offset);
        assert(spec_bump_fits(areas, offset, PAGE_SIZE as int));
        assert(spec_bump_can_carve(areas, offset + PAGE_SIZE, 0));
    }
    assert(spec_bump_can_carve(areas, offset, c + 1) == (spec_bump_fits(
        areas,
        offset,
        PAGE_SIZE as int,
    ) && spec_bump_can_carve(areas, offset + PAGE_SIZE, (c + 1) - 1)));
}

proof fn lemma_carve_blocked(areas: Seq<MemoryArea>, offset: int, c: int, n: int)
    requires
        0 <= c < n,
        spec_bump_can_carve(areas, offset, c),
        !spec_bump_fits(areas, offset + c * PAGE_SIZE, PAGE_SIZE as int),
    ensures
        !spec_bump_can_carve(areas, offset, n),
    decreases c,
{
    if spec_bump_can_carve(areas, offset, n) {
        if c == 0 {
            assert(spec_bump_fits(areas, offset, PAGE_SIZE as int));
            assert(false);
        } else {
            lemma_carve_blocked(areas, offset + PAGE_SIZE, c - 1, n - 1);
            assert(false);
        }
    }
}

proof fn lemma_meta_upto_mono(entries: Seq<BuddyEntry>, i: int, n: int)
    requires
        i <= n,
    ensures
        spec_meta_upto(entries, i) <= spec_meta_upto(entries, n),
    decreases n - i,
{
    if i < n {
        lemma_meta_upto_mono(entries, i, n - 1);
    }
}

/// Wherever a run fits, the cursor has a concatenation address.
proof fn lemma_fits_concat(areas: Seq<MemoryArea>, offset: int, bytes: int)
    requires
        spec_bump_fits(areas, offset, bytes),
    ensures
        spec_concat_addr(areas, offset) is Some,
    decreases areas.len(),
{
    if areas.len() > 0 && !(offset < areas[0].size) {
        lemma_fits_concat(areas.drop_first(), offset - areas[0].size, bytes);
    }
}

/// One more carved frame moves the aligned bump cursor by one page.
proof fn lemma_offset_step(o1: int, o2: int)
    requires
        o1 % (PAGE_SIZE as int) == 0,
        o2 % (PAGE_SIZE as int) == 0,
        o1 >= 0,
        o2 >= 0,
        o2 / (PAGE_SIZE as int) == o1 / (PAGE_SIZE as int) + 1,
    ensures
        o2 == o1 + PAGE_SIZE,
{
    assert(o2 == o1 + PAGE_SIZE) by (nonlinear_arith)
        requires
            o1 % (PAGE_SIZE as int) == 0,
            o2 % (PAGE_SIZE as int) == 0,
            o1 >= 0,
            o2 >= 0,
            o2 / (PAGE_SIZE as int) == o1 / (PAGE_SIZE as int) + 1,
            PAGE_SIZE == 4096,
    ;
}

/// The cursor's leftover at area `a`: what remains of `offset` once the
/// areas before `a` have absorbed it.
pub open spec fn spec_bump_rem(areas: Seq<MemoryArea>, offset: int, a: int) -> int
    decreases a,
{
    if a <= 0 {
        offset
    } else {
        spec_bump_rem(
            areas.drop_first(),
            if offset >= areas[0].size {
                offset - areas[0].size
            } else {
                0
            },
            a - 1,
        )
    }
}

/// Stepping the leftover past one more area.
proof fn lemma_rem_step(areas: Seq<MemoryArea>, offset: int, a: int)
    requires
        0 <= a < areas.len(),
    ensures
        spec_bump_rem(areas, offset, a + 1) == (if spec_bump_rem(areas, offset, a)
            >= areas[a].size {
            spec_bump_rem(areas, offset, a) - areas[a].size
        } else {
            0
        }),
    decreases a,
{
    let off2 = if offset >= areas[0].size {
        offset - areas[0].size
    } else {
        0
    };
    if a > 0 {
        assert(areas.drop_first()[a - 1] == areas[a]);
        lemma_rem_step(areas.drop_first(), off2, a - 1);
        assert(spec_bump_rem(areas, offset, a + 1) == spec_bump_rem(
            areas.drop_first(),
            off2,
            a,
        ));
        assert(spec_bump_rem(areas, offset, a) == spec_bump_rem(areas.drop_first(), off2, a - 1));
    } else {
        assert(spec_bump_rem(areas, offset, 1) == spec_bump_rem(areas.drop_first(), off2, 0));
        assert(spec_bump_rem(areas.drop_first(), off2, 0) == off2);
        assert(spec_bump_rem(areas, offset, 0) == offset);
    }
}

/// A frame of area `a` lies past the cursor exactly when it lies past the
/// cursor's leftover within that area.
proof fn lemma_bump_free_at_area(
    areas: Seq<MemoryArea>,
    mem_len: int,
    offset: int,
    a: int,
    f: u64,
)
    requires
        spec_areas_wf(areas, mem_len),
        0 <= offset,
        0 <= a < areas.len(),
        areas[a].base.0 <= f,
        f + PAGE_SIZE <= areas[a].base.0 + areas[a].size,
        (f - areas[a].base.0) % (PAGE_SIZE as int) == 0,
    ensures
        spec_bump_is_free(areas, offset, f) <==> f - areas[a].base.0 >= spec_bump_rem(
            areas,
            offset,
            a,
        ),
    decreases a,
{
    let a0 = areas[0];
    if a == 0 {
    } else {
        assert(a0.base.0 + a0.size <= areas[a].base.0 || areas[a].base.0 + areas[a].size
            <= a0.base.0);
        assert(!(a0.base.0 <= f && f + PAGE_SIZE <= a0.base.0 + a0.size));
        let off2 = if offset >= a0.size {
            offset - a0.size
        } else {
            0
        };
        lemma_areas_wf_drop(areas, mem_len);
        assert(areas.drop_first()[a - 1] == areas[a]);
        lemma_bump_free_at_area(areas.drop_first(), mem_len, off2, a - 1, f);
        assert(spec_bump_is_free(areas, offset, f) == spec_bump_is_free(
            areas.drop_first(),
            off2,
            f,
        ));
    }
}

/// Only whole frames are ever free.
proof fn lemma_is_free_aligned(b: BuddyAllocator, f: u64, mem_len: int)
    requires
        b.inv(mem_len),
        b.spec_is_free(f),
    ensures
        f % PAGE_SIZE == 0,
{
    let w = choose|w: int|
        0 <= w < b.spec_entries().len() && spec_entry_contains(
            #[trigger] b.spec_entries()[w],
            f,
        ) && spec_bit(b.spec_map(w), (f - b.spec_entries()[w].base.0) / (PAGE_SIZE as int));
    let e = b.spec_entries()[w];
    assert(f % PAGE_SIZE == 0) by (nonlinear_arith)
        requires
            e.base.0 % PAGE_SIZE == 0,
            e.base.0 <= f,
            (f - e.base.0) % (PAGE_SIZE as int) == 0,
            PAGE_SIZE == 4096,
    ;
}

/// Frame index to frame address inside a region, and back.
proof fn lemma_idx_to_frame(base: u64, size: u64, idx: int)
    requires
        base % PAGE_SIZE == 0,
        size % PAGE_SIZE == 0,
        0 <= idx < size as int / (PAGE_SIZE as int),
        base + size <= u64::MAX,
    ensures
        base + idx * PAGE_SIZE + PAGE_SIZE <= base + size,
        (base + idx * PAGE_SIZE) % (PAGE_SIZE as int) == 0,
        ((base + idx * PAGE_SIZE) - base) / (PAGE_SIZE as int) == idx,
{
    assert(base + idx * PAGE_SIZE + PAGE_SIZE <= base + size && (base + idx * PAGE_SIZE) % (
    PAGE_SIZE as int) == 0 && ((base + idx * PAGE_SIZE) - base) / (PAGE_SIZE as int)
        == idx) by (nonlinear_arith)
        requires
            base % PAGE_SIZE == 0,
            size % PAGE_SIZE == 0,
            0 <= idx < size as int / (PAGE_SIZE as int),
            base + size <= u64::MAX,
            PAGE_SIZE == 4096,
    ;
}

/// A well-formed frame address of a region sits at a whole frame index.
proof fn lemma_frame_to_idx(base: u64, size: u64, f: u64)
    requires
        base % PAGE_SIZE == 0,
        size % PAGE_SIZE == 0,
        base <= f,
        f + PAGE_SIZE <= base + size,
        (f - base) % (PAGE_SIZE as int) == 0,
    ensures
        0 <= (f - base) / (PAGE_SIZE as int) < size as int / (PAGE_SIZE as int),
        base + ((f - base) / (PAGE_SIZE as int)) * PAGE_SIZE == f,
{
    assert(0 <= (f - base) / (PAGE_SIZE as int) < size as int / (PAGE_SIZE as int) && base + ((f
        - base) / (PAGE_SIZE as int)) * PAGE_SIZE == f) by (nonlinear_arith)
        requires
            base % PAGE_SIZE == 0,
            size % PAGE_SIZE == 0,
            base <= f,
            f + PAGE_SIZE <= base + size,
            (f - base) % (PAGE_SIZE as int) == 0,
            PAGE_SIZE == 4096,
    ;
}

/// Whether `f` is a whole frame of the region of `e`.
pub open spec fn spec_entry_contains(e: BuddyEntry, f: u64) -> bool {
    &&& e.base.0 <= f
    &&& f + PAGE_SIZE <= e.base.0 + e.size
    &&& (f - e.base.0) % (PAGE_SIZE as int) == 0
}

/// Frames of the region of `e`.
pub open spec fn spec_entry_pages(e: BuddyEntry) -> int {
    e.size as int / (PAGE_SIZE as int)
}

/// The bitmap-based frame allocator over the coalesced boot regions.
///
/// The table frame and the bitmap pages are carved out of the managed
/// regions through the bump allocator and stay reserved; the allocator
/// works on its own copy of the region table and of each region's bit
/// stream, which is what its contracts speak of.
pub struct BuddyAllocator {
    table_phys: PhysicalAddress,
    entries: Vec<BuddyEntry>,
    maps: Vec<Vec<u8>>,
    clear_frees: bool,
}

impl BuddyAllocator {
    /// The coalesced regions, in table order.
    pub closed spec fn spec_entries(self) -> Seq<BuddyEntry> {
        self.entries@
    }

    /// The bitmap byte stream of region `i`.
    pub closed spec fn spec_map(self, i: int) -> Seq<u8> {
        self.maps@[i]@
    }

    /// Number of bitmap streams held, one per region.
    pub closed spec fn spec_maps_len(self) -> int {
        self.maps@.len() as int
    }

    pub closed spec fn spec_table_phys(self) -> u64 {
        self.table_phys.0
    }

    pub closed spec fn spec_clear_frees(self) -> bool {
        self.clear_frees
    }

    /// Free frames of region `i`: its set bits.
    pub open spec fn spec_free_in(self, i: int) -> int {
        spec_count_prefix(self.spec_map(i), spec_entry_pages(self.spec_entries()[i]))
    }

    /// Free frames of the first `n` regions.
    pub open spec fn spec_free_upto(self, n: int) -> int
        decreases n,
    {
        if n <= 0 {
            0
        } else {
            self.spec_free_upto(n - 1) + self.spec_free_in(n - 1)
        }
    }

    /// Frames of the first `n` regions.
    pub open spec fn spec_total_upto(self, n: int) -> int
        decreases n,
    {
        if n <= 0 {
            0
        } else {
            self.spec_total_upto(n - 1) + spec_entry_pages(self.spec_entries()[n - 1])
        }
    }

    /// What first-fit finds in region `i`.
    pub open spec fn spec_fit_in(self, i: int, count: u64) -> Option<int> {
        spec_first_fit(
            self.spec_map(i),
            spec_entry_pages(self.spec_entries()[i]),
            count as int,
            0,
        )
    }

    /// The first-fit scan from region `i` on.
    pub open spec fn spec_scan(self, count: u64, i: int) -> Option<u64>
        decreases self.spec_entries().len() - i,
    {
        if i < 0 || i >= self.spec_entries().len() {
            None
        } else {
            match self.spec_fit_in(i, count) {
                Some(st) => Some(
                    (self.spec_entries()[i].base.0 + st * PAGE_SIZE) as u64,
                ),
                None => self.spec_scan(count, i + 1),
            }
        }
    }
}

impl BuddyAllocator {
    proof fn lemma_free_upto_bounds(self, n: int)
        requires
            forall|i: int|
                0 <= i < n ==> 0 <= #[trigger] spec_entry_pages(self.spec_entries()[i]),
        ensures
            0 <= self.spec_free_upto(n) <= self.spec_total_upto(n),
        decreases n,
    {
        if n > 0 {
            self.lemma_free_upto_bounds(n - 1);
            lemma_count_prefix_bounds(
                self.spec_map(n - 1),
                spec_entry_pages(self.spec_entries()[n - 1]),
            );
        }
    }

    proof fn lemma_total_upto_mono(self, i: int, n: int)
        requires
            i <= n,
            forall|j: int|
                0 <= j < n ==> 0 <= #[trigger] spec_entry_pages(self.spec_entries()[j]),
        ensures
            self.spec_total_upto(i) <= self.spec_total_upto(n),
        decreases n - i,
    {
        if i < n {
            self.lemma_total_upto_mono(i, n - 1);
        }
    }

    /// Totals depend on the entries alone.
    proof fn lemma_total_upto_congruent(self, other: Self, n: int)
        requires
            other.spec_entries() == self.spec_entries(),
        ensures
            other.spec_total_upto(n) == self.spec_total_upto(n),
        decreases n,
    {
        if n > 0 {
            self.lemma_total_upto_congruent(other, n - 1);
        }
    }

    /// Free totals change only through the one region whose bitmap
    /// changed.
    proof fn lemma_free_upto_update(self, other: Self, n: int, i: int)
        requires
            other.spec_entries() == self.spec_entries(),
            0 <= i < n,
            forall|j: int| 0 <= j < n && j != i ==> #[trigger] other.spec_map(j) == self.spec_map(j),
        ensures
            other.spec_free_upto(n) == self.spec_free_upto(n) - self.spec_free_in(i)
                + other.spec_free_in(i),
        decreases n,
    {
        if i == n - 1 {
            self.lemma_free_upto_congruent(other, n - 1);
        } else {
            self.lemma_free_upto_update(other, n - 1, i);
        }
    }

    proof fn lemma_free_upto_congruent(self, other: Self, n: int)
        requires
            other.spec_entries() == self.spec_entries(),
            forall|j: int| 0 <= j < n ==> #[trigger] other.spec_map(j) == self.spec_map(j),
        ensures
            other.spec_free_upto(n) == self.spec_free_upto(n),
        decreases n,
    {
        if n > 0 {
            self.lemma_free_upto_congruent(other, n - 1);
        }
    }

    /// A scan that failed in every region up to `i` starts at `i`.
    proof fn lemma_scan_skip(self, count: u64, i: int)
        requires
            0 <= i <= self.spec_entries().len(),
            forall|j: int| 0 <= j < i ==> #[trigger] self.spec_fit_in(j, count) is None,
        ensures
            self.spec_scan(count, 0) == self.spec_scan(count, i),
        decreases i,
    {
        if i > 0 {
            self.lemma_scan_skip_from(count, 0, i);
        }
    }

    proof fn lemma_scan_skip_from(self, count: u64, lo: int, i: int)
        requires
            0 <= lo <= i <= self.spec_entries().len(),
            forall|j: int| lo <= j < i ==> #[trigger] self.spec_fit_in(j, count) is None,
        ensures
            self.spec_scan(count, lo) == self.spec_scan(count, i),
        decreases i - lo,
    {
        if lo < i {
            self.lemma_scan_skip_from(count, lo + 1, i);
        }
    }
}

/// Coalescing one boot area into the region table: extend the first
/// region it abuts, or take a fresh slot.
pub open spec fn spec_insert_at(entries: Seq<BuddyEntry>, area: MemoryArea, i: int) -> Seq<
    BuddyEntry,
>
    decreases entries.len() - i,
{
    if i < 0 || i >= entries.len() {
        if entries.len() < BUDDY_ENTRIES {
            entries.push(
                BuddyEntry { base: area.base, size: area.size, map: PhysicalAddress(0) },
            )
        } else {
            entries
        }
    } else if area.base.0 + area.size == entries[i].base.0 {
        entries.update(
            i,
            BuddyEntry {
                base: area.base,
                size: (entries[i].size + area.size) as u64,
                map: entries[i].map,
            },
        )
    } else if entries[i].base.0 + entries[i].size == area.base.0 {
        entries.update(
            i,
            BuddyEntry {
                base: entries[i].base,
                size: (entries[i].size + area.size) as u64,
                map: entries[i].map,
            },
        )
    } else {
        spec_insert_at(entries, area, i + 1)
    }
}

/// The region table that coalescing the first `n` areas produces.
pub open spec fn spec_coalesce(areas: Seq<MemoryArea>, n: int) -> Seq<BuddyEntry>
    decreases n,
{
    if n <= 0 {
        Seq::empty()
    } else {
        spec_insert_at(spec_coalesce(areas, n - 1), areas[n - 1], 0)
    }
}

/// An all-clear bitmap has no free frames.
proof fn lemma_count_zero(bits: Seq<u8>, n: int)
    requires
        forall|idx: int| 0 <= idx < n ==> !spec_bit(bits, idx),
    ensures
        spec_count_prefix(bits, n) == 0,
    decreases n,
{
    if n > 0 {
        lemma_count_zero(bits, n - 1);
    }
}

/// A byte of zero has no bits set.
proof fn lemma_zero_byte_bits(k: u64)
    requires
        k < 8,
    ensures
        ((0u8 as u64) >> k) & 1 == 0,
{
    assert(((0u8 as u64) >> k) & 1 == 0) by (bit_vector)
        requires
            k < 8,
    ;
}

pub open spec fn spec_entry_ok(e: BuddyEntry, mem_len: int) -> bool {
    &&& e.size >= PAGE_SIZE
    &&& e.size % PAGE_SIZE == 0
    &&& e.base.0 % PAGE_SIZE == 0
    &&& e.base.0 + e.size <= mem_len
}

pub open spec fn spec_entry_disjoint(a: BuddyEntry, b: BuddyEntry) -> bool {
    a.base.0 + a.size <= b.base.0 || b.base.0 + b.size <= a.base.0
}

pub open spec fn spec_entry_area_disjoint(e: BuddyEntry, a: MemoryArea) -> bool {
    e.base.0 + e.size <= a.base.0 || a.base.0 + a.size <= e.base.0
}

/// A well-formed region table for a machine of `mem_len` bytes.
pub open spec fn spec_entries_ok(entries: Seq<BuddyEntry>, mem_len: int) -> bool {
    &&& entries.len() <= BUDDY_ENTRIES
    &&& forall|i: int| 0 <= i < entries.len() ==> spec_entry_ok(#[trigger] entries[i], mem_len)
    &&& forall|i: int, j: int|
        0 <= i < entries.len() && 0 <= j < entries.len() && i != j ==> spec_entry_disjoint(
            #[trigger] entries[i],
            #[trigger] entries[j],
        )
}

/// Bytes covered by the region table.
pub open spec fn spec_entries_size(entries: Seq<BuddyEntry>) -> int
    decreases entries.len(),
{
    if entries.len() == 0 {
        0
    } else {
        entries[0].size + spec_entries_size(entries.drop_first())
    }
}

proof fn lemma_entries_size_update(entries: Seq<BuddyEntry>, i: int, e: BuddyEntry)
    requires
        0 <= i < entries.len(),
    ensures
        spec_entries_size(entries.update(i, e)) == spec_entries_size(entries) - entries[i].size
            + e.size,
    decreases entries.len(),
{
    if i == 0 {
        assert(entries.update(0, e).drop_first() =~= entries.drop_first());
    } else {
        assert(entries.update(i, e).drop_first() =~= entries.drop_first().update(i - 1, e));
        lemma_entries_size_update(entries.drop_first(), i - 1, e);
    }
}

proof fn lemma_entries_size_push(entries: Seq<BuddyEntry>, e: BuddyEntry)
    ensures
        spec_entries_size(entries.push(e)) == spec_entries_size(entries) + e.size,
    decreases entries.len(),
{
    assert(spec_entries_size(entries.push(e)) == entries.push(e)[0].size + spec_entries_size(
        entries.push(e).drop_first(),
    ));
    if entries.len() == 0 {
        assert(entries.push(e).drop_first() =~= Seq::<BuddyEntry>::empty());
        assert(entries.push(e)[0] == e);
    } else {
        assert(entries.push(e).drop_first() =~= entries.drop_first().push(e));
        assert(entries.push(e)[0] == entries[0]);
        lemma_entries_size_push(entries.drop_first(), e);
    }
}

/// Coalesce one boot area into the table, exactly as the insertion spec
/// says, keeping the table well formed and disjoint from the areas not
/// yet processed.
fn coalesce_area(
    entries: &mut Vec<BuddyEntry>,
    area: MemoryArea,
    Ghost(mem_len): Ghost<int>,
    Ghost(rest): Ghost<Seq<MemoryArea>>,
)
    requires
        mem_len <= u64::MAX,
        spec_entries_ok(old(entries)@, mem_len),
        area.size >= PAGE_SIZE,
        area.size % PAGE_SIZE == 0,
        area.base.0 % PAGE_SIZE == 0,
        area.base.0 + area.size <= mem_len,
        forall|i: int|
            0 <= i < old(entries)@.len() ==> spec_entry_area_disjoint(
                #[trigger] old(entries)@[i],
                area,
            ),
        forall|i: int, r: int|
            0 <= i < old(entries)@.len() && 0 <= r < rest.len() ==> spec_entry_area_disjoint(
                #[trigger] old(entries)@[i],
                #[trigger] rest[r],
            ),
        forall|r: int|
            0 <= r < rest.len() ==> (#[trigger] rest[r]).base.0 + rest[r].size <= area.base.0
                || area.base.0 + area.size <= rest[r].base.0,
        forall|r: int| 0 <= r < rest.len() ==> (#[trigger] rest[r]).size > 0,
    ensures
        final(entries)@ == spec_insert_at(old(entries)@, area, 0),
        spec_entries_ok(final(entries)@, mem_len),
        forall|i: int, r: int|
            0 <= i < final(entries)@.len() && 0 <= r < rest.len() ==> spec_entry_area_disjoint(
                #[trigger] final(entries)@[i],
                #[trigger] rest[r],
            ),
        spec_entries_size(final(entries)@) <= spec_entries_size(old(entries)@) + area.size,
        old(entries)@.len() < BUDDY_ENTRIES ==> spec_entries_size(final(entries)@)
            == spec_entries_size(old(entries)@) + area.size,
        final(entries)@.len() <= old(entries)@.len() + 1,
        old(entries)@.len() <= final(entries)@.len(),
        forall|i: int|
            0 <= i < old(entries)@.len() ==> (#[trigger] final(entries)@[i]).base.0
                <= old(entries)@[i].base.0 && old(entries)@[i].base.0 + old(entries)@[i].size
                <= final(entries)@[i].base.0 + final(entries)@[i].size,
        old(entries)@.len() < BUDDY_ENTRIES ==> exists|i: int|
            0 <= i < final(entries)@.len() && (#[trigger] final(entries)@[i]).base.0
                <= area.base.0 && area.base.0 + area.size <= final(entries)@[i].base.0
                + final(entries)@[i].size,
{
    let ghost pre = entries@;
    let n = entries.len();
    let mut j: usize = 0;
    while j < n
        invariant
            pre == old(entries)@,
            mem_len <= u64::MAX,
            entries@ == pre,
            n == pre.len(),
            j <= n,
            spec_entries_ok(pre, mem_len),
            area.size >= PAGE_SIZE && area.size % PAGE_SIZE == 0 && area.base.0 % PAGE_SIZE == 0
                && area.base.0 + area.size <= mem_len,
            forall|i: int|
                0 <= i < pre.len() ==> spec_entry_area_disjoint(#[trigger] pre[i], area),
            forall|i: int, r: int|
                0 <= i < pre.len() && 0 <= r < rest.len() ==> spec_entry_area_disjoint(
                    #[trigger] pre[i],
                    #[trigger] rest[r],
                ),
            forall|r: int|
                0 <= r < rest.len() ==> (#[trigger] rest[r]).base.0 + rest[r].size <= area.base.0
                    || area.base.0 + area.size <= rest[r].base.0,
            forall|r: int| 0 <= r < rest.len() ==> (#[trigger] rest[r]).size > 0,
            spec_insert_at(pre, area, 0) == spec_insert_at(pre, area, j as int),
        decreases n - j,
    {
        let e = entries[j];
        if area.base.0 + area.size == e.base.0 {
            let merged = BuddyEntry { base: area.base, size: e.size + area.size, map: e.map };
            entries[j] = merged;
            proof {
                assert(entries@ == pre.update(j as int, merged));
                assert(entries@[j as int].base.0 <= area.base.0 && area.base.0 + area.size
                    <= entries@[j as int].base.0 + entries@[j as int].size);
                assert(entries@ == spec_insert_at(pre, area, j as int));
                lemma_entries_size_update(pre, j as int, merged);
                assert forall|i: int|
                    0 <= i < entries@.len() implies spec_entry_ok(
                    #[trigger] entries@[i],
                    mem_len,
                ) by {}
                assert forall|i: int, k: int|
                    0 <= i < entries@.len() && 0 <= k < entries@.len() && i != k implies
                    spec_entry_disjoint(#[trigger] entries@[i], #[trigger] entries@[k]) by {
                    if i == j {
                        assert(spec_entry_disjoint(pre[i], pre[k]));
                        assert(spec_entry_area_disjoint(pre[k], area));
                    } else if k == j {
                        assert(spec_entry_disjoint(pre[i], pre[k]));
                        assert(spec_entry_area_disjoint(pre[i], area));
                    }
                }
                assert forall|i: int, r: int|
                    0 <= i < entries@.len() && 0 <= r < rest.len() implies
                    spec_entry_area_disjoint(#[trigger] entries@[i], #[trigger] rest[r]) by {
                    if i == j {
                        assert(spec_entry_area_disjoint(pre[i], rest[r]));
                        assert(rest[r].base.0 + rest[r].size <= area.base.0 || area.base.0
                            + area.size <= rest[r].base.0);
                    }
                }
            }
            return ;
        }
        if e.base.0 + e.size == area.base.0 {
            let merged = BuddyEntry { base: e.base, size: e.size + area.size, map: e.map };
            entries[j] = merged;
            proof {
                assert(entries@ == pre.update(j as int, merged));
                assert(entries@[j as int].base.0 <= area.base.0 && area.base.0 + area.size
                    <= entries@[j as int].base.0 + entries@[j as int].size);
                assert(entries@ == spec_insert_at(pre, area, j as int));
                lemma_entries_size_update(pre, j as int, merged);
                assert forall|i: int|
                    0 <= i < entries@.len() implies spec_entry_ok(
                    #[trigger] entries@[i],
                    mem_len,
                ) by {}
                assert forall|i: int, k: int|
                    0 <= i < entries@.len() && 0 <= k < entries@.len() && i != k implies
                    spec_entry_disjoint(#[trigger] entries@[i], #[trigger] entries@[k]) by {
                    if i == j {
                        assert(spec_entry_disjoint(pre[i], pre[k]));
                        assert(spec_entry_area_disjoint(pre[k], area));
                    } else if k == j {
                        assert(spec_entry_disjoint(pre[i], pre[k]));
                        assert(spec_entry_area_disjoint(pre[i], area));
                    }
                }
                assert forall|i: int, r: int|
                    0 <= i < entries@.len() && 0 <= r < rest.len() implies
                    spec_entry_area_disjoint(#[trigger] entries@[i], #[trigger] rest[r]) by {
                    if i == j {
                        assert(spec_entry_area_disjoint(pre[i], rest[r]));
                        assert(rest[r].base.0 + rest[r].size <= area.base.0 || area.base.0
                            + area.size <= rest[r].base.0);
                    }
                }
            }
            return ;
        }
        j = j + 1;
    }
    if entries.len() < BUDDY_ENTRIES as usize {
        let fresh = BuddyEntry { base: area.base, size: area.size, map: PhysicalAddress::new(0) };
        entries.push(fresh);
        proof {
            assert(entries@ == pre.push(fresh));
            assert(entries@[pre.len() as int].base.0 <= area.base.0 && area.base.0 + area.size
                <= entries@[pre.len() as int].base.0 + entries@[pre.len() as int].size);
            lemma_entries_size_push(pre, fresh);
            assert forall|i: int, k: int|
                0 <= i < entries@.len() && 0 <= k < entries@.len() && i != k implies
                spec_entry_disjoint(#[trigger] entries@[i], #[trigger] entries@[k]) by {
                if i == pre.len() {
                    assert(spec_entry_area_disjoint(pre[k], area));
                } else if k == pre.len() {
                    assert(spec_entry_area_disjoint(pre[i], area));
                }
            }
        }
    }
}

impl BuddyAllocator {
    /// Return a run of frames to the free maps; the region list, the
    /// table frame and the zero-on-free setting never change.
    #[verifier::rlimit(100)]
    pub fn free_frames(&mut self, mem: &mut Machine, address: PhysicalAddress, count: FrameCount)
        -> (r: bool)
        requires
            old(self).inv(old(mem).mem().len() as int),
        ensures
            final(self).inv(final(mem).mem().len() as int),
            final(mem).mem().len() == old(mem).mem().len(),
            final(mem).tlb_map() == old(mem).tlb_map(),
            final(mem).spec_table() == old(mem).spec_table(),
            final(self).spec_total_frames() == old(self).spec_total_frames(),
            final(self).spec_entries() == old(self).spec_entries(),
            final(self).spec_clear_frees() == old(self).spec_clear_frees(),
            final(self).spec_table_phys() == old(self).spec_table_phys(),
            r == old(self).spec_can_free(address.0, count.0),
            !r ==> *final(self) == *old(self) && final(mem).mem() == old(mem).mem(),
            r ==> {
                &&& forall|j: int|
                    0 <= j < count.0 ==> final(self).spec_is_free(
                        #[trigger] ((address.0 + j * PAGE_SIZE) as u64),
                    )
                &&& forall|f: u64|
                    !(address.0 <= f < address.0 + count.0 * PAGE_SIZE)
                        ==> final(self).spec_is_free(f) == old(self).spec_is_free(f)
                &&& (forall|j: int|
                    0 <= j < count.0 ==> !old(self).spec_is_free(
                        #[trigger] ((address.0 + j * PAGE_SIZE) as u64),
                    )) ==> final(self).spec_used_frames() == old(self).spec_used_frames() - count.0
                &&& forall|j: int|
                    0 <= j < old(mem).mem().len() && !(address.0 <= j < address.0 + count.0
                        * PAGE_SIZE) ==> final(mem).mem()[j] == old(mem).mem()[j]
            },
    {
        let ghost self0 = *self;
        let ghost m0 = *mem;
        let ghost mem_len = mem.mem().len() as int;
        proof {
            mem.lemma_mem_bounded();
        }
        let n = self.entries.len();
        let mut i: usize = 0;
        while i < n
            invariant
                self0 == *old(self),
                m0 == *old(mem),
                *self == self0,
                *mem == m0,
                self0.inv(mem_len),
                mem_len == m0.mem().len() as int,
                mem_len <= u64::MAX,
                n == self.spec_entries().len(),
                i <= n,
                forall|j: int|
                    0 <= j < i ==> !((#[trigger] self.spec_entries()[j]).base.0 <= address.0
                        && address.0 + count.0 * PAGE_SIZE <= self.spec_entries()[j].base.0
                        + self.spec_entries()[j].size && (address.0
                        - self.spec_entries()[j].base.0) % (PAGE_SIZE as int) == 0),
            decreases n - i,
        {
            let e = self.entries[i];
            let mut contained = false;
            let mut rel: u64 = 0;
            if address.0 >= e.base.0 {
                rel = address.0 - e.base.0;
                if rel <= e.size && rel % PAGE_SIZE == 0 {
                    let room = (e.size - rel) / PAGE_SIZE;
                    if count.0 <= room {
                        proof {
                            assert(count.0 * PAGE_SIZE <= e.size - rel) by (nonlinear_arith)
                                requires
                                    room == (e.size - rel) as int / (PAGE_SIZE as int),
                                    count.0 <= room,
                                    (e.size - rel) % (PAGE_SIZE as int) == 0,
                                    e.size >= rel,
                                    PAGE_SIZE == 4096,
                            ;
                        }
                        contained = true;
                    }
                }
            }
            if contained {
                proof {
                    assert(count.0 * PAGE_SIZE <= e.size - rel);
                    assert(self.spec_can_free(address.0, count.0));
                }
                let start: u64 = rel / PAGE_SIZE;
                proof {
                    assert(start == (address.0 - e.base.0) as int / (PAGE_SIZE as int));
                    assert(start * PAGE_SIZE == rel && start + count.0 <= spec_entry_pages(e))
                        by (nonlinear_arith)
                        requires
                            start == rel as int / (PAGE_SIZE as int),
                            rel % PAGE_SIZE == 0,
                            count.0 * PAGE_SIZE <= e.size - rel,
                            e.size % PAGE_SIZE == 0,
                            rel <= e.size,
                            spec_entry_pages(e) == e.size as int / (PAGE_SIZE as int),
                            PAGE_SIZE == 4096,
                    ;
                }
                if self.clear_frees {
                    mem.zero_phys(address.0, count.0 * PAGE_SIZE);
                }
                let ghost m_mid = *mem;
                let mut k: u64 = 0;
                proof {
                    vstd::std_specs::vec::axiom_spec_len(&self.maps);
                }
                while k < count.0
                    invariant
                        self0.inv(mem_len),
                        mem_len <= u64::MAX,
                        self.spec_entries() == self0.spec_entries(),
                        self.spec_clear_frees() == self0.spec_clear_frees(),
                        self.spec_table_phys() == self0.spec_table_phys(),
                        self.maps@.len() == self0.maps@.len(),
                        *mem == m_mid,
                        i < n,
                        n == self.spec_entries().len(),
                        e == self.spec_entries()[i as int],
                        k <= count.0,
                        start + count.0 <= spec_entry_pages(e),
                        8 * self.spec_map(i as int).len() >= spec_entry_pages(e),
                        self.spec_map(i as int).len() == self0.spec_map(i as int).len(),
                        forall|j: int|
                            0 <= j < n && j != i ==> #[trigger] self.spec_map(j) == self0.spec_map(
                                j,
                            ),
                        forall|idx: int|
                            0 <= idx < 8 * self.spec_map(i as int).len() && !(start <= idx < start
                                + k) ==> #[trigger] spec_bit(self.spec_map(i as int), idx)
                                == spec_bit(self0.spec_map(i as int), idx),
                        forall|idx: int|
                            start <= idx < start + k ==> #[trigger] spec_bit(
                                self.spec_map(i as int),
                                idx,
                            ),
                        (forall|j: int|
                            0 <= j < count.0 ==> !spec_bit(
                                self0.spec_map(i as int),
                                #[trigger] (start + j),
                            )) ==> spec_count_prefix(self.spec_map(i as int), spec_entry_pages(e))
                            == spec_count_prefix(self0.spec_map(i as int), spec_entry_pages(e))
                            + k,
                        spec_count_prefix(self.spec_map(i as int), spec_entry_pages(e))
                            >= spec_count_prefix(self0.spec_map(i as int), spec_entry_pages(e)),
                        spec_count_prefix(self.spec_map(i as int), spec_entry_pages(e))
                            <= spec_count_prefix(self0.spec_map(i as int), spec_entry_pages(e))
                            + k,
                    decreases count.0 - k,
                {
                    let ghost map_before = self.spec_map(i as int);
                    let bit_ix: u64 = start + k;
                    let byte_ix: u64 = bit_ix / 8;
                    proof {
                        assert(byte_ix < self.spec_map(i as int).len()) by (nonlinear_arith)
                            requires
                                byte_ix == bit_ix as int / 8,
                                bit_ix < spec_entry_pages(e),
                                8 * self.spec_map(i as int).len() >= spec_entry_pages(e),
                        ;
                        vstd::std_specs::vec::axiom_spec_len(&self.maps);
                        vstd::std_specs::vec::axiom_spec_len(&self.maps@[i as int]);
                    }
                    let ghost rows_before = self.maps@;
                    let ghost self_head = *self;
                    let kbit: u64 = bit_ix % 8;
                    let byte: u8 = self.maps[i][byte_ix as usize];
                    let nb: u8 = byte | (1u8 << kbit);
                    self.maps[i][byte_ix as usize] = nb;
                    proof {
                        lemma_byte_set(byte, kbit);
                        lemma_bit_value(byte, kbit);
                        assert(self.maps@ == rows_before.update(i as int, self.maps@[i as int]));
                        assert forall|j: int| 0 <= j < n && j != i implies #[trigger] self
                            .spec_map(j) == self0.spec_map(j) by {
                            assert(self.maps@[j] == rows_before[j]);
                            assert(self_head.maps@[j] == rows_before[j]);
                            assert(self_head.spec_map(j) == self0.spec_map(j));
                        }
                        let map_after = self.spec_map(i as int);
                        assert(map_after == map_before.update(byte_ix as int, nb));
                        assert forall|idx: int|
                            0 <= idx < 8 * map_after.len() && idx != bit_ix implies
                            #[trigger] spec_bit(map_after, idx) == spec_bit(map_before, idx) by {
                            if idx / 8 == byte_ix {
                                assert(idx % 8 != kbit as int) by (nonlinear_arith)
                                    requires
                                        idx / 8 == bit_ix as int / 8,
                                        idx != bit_ix,
                                        kbit == bit_ix % 8,
                                        0 <= idx,
                                ;
                                assert(0 <= idx % 8 < 8);
                            }
                        }
                        assert(spec_bit(map_after, bit_ix as int)) by {
                            assert(bit_ix as int % 8 == kbit && bit_ix as int / 8
                                == byte_ix as int);
                        }
                        if spec_bit(map_before, bit_ix as int) {
                            lemma_count_prefix_congruent(
                                map_before,
                                map_after,
                                spec_entry_pages(e),
                            );
                        } else {
                            lemma_count_prefix_flip(
                                map_before,
                                map_after,
                                spec_entry_pages(e),
                                bit_ix as int,
                            );
                        }
                    }
                    k = k + 1;
                }
                proof {
                    // the region's bookkeeping: newly freed frames are free,
                    // everything else kept, totals updated
                    self0.lemma_total_upto_congruent(*self, n as int);
                    self0.lemma_free_upto_update(*self, n as int, i as int);
                    assert forall|j: int|
                        0 <= j < count.0 implies self.spec_is_free(
                        #[trigger] ((address.0 + j * PAGE_SIZE) as u64),
                    ) by {
                        lemma_idx_to_frame(e.base.0, e.size, start + j);
                        assert(address.0 + j * PAGE_SIZE == e.base.0 + (start + j) * PAGE_SIZE)
                            by (nonlinear_arith)
                            requires
                                address.0 == e.base.0 + start * PAGE_SIZE,
                                PAGE_SIZE == 4096,
                        ;
                        let f = (address.0 + j * PAGE_SIZE) as u64;
                        assert(spec_entry_contains(self.spec_entries()[i as int], f));
                        assert(spec_bit(self.spec_map(i as int), start + j));
                        assert((f - e.base.0) / (PAGE_SIZE as int) == start + j);
                    }
                    assert forall|f: u64|
                        !(address.0 <= f < address.0 + count.0 * PAGE_SIZE) implies #[trigger] self
                        .spec_is_free(f) == self0.spec_is_free(f) by {
                        if self0.spec_is_free(f) || self.spec_is_free(f) {
                            let w = if self0.spec_is_free(f) {
                                choose|w: int|
                                    0 <= w < self0.spec_entries().len() && spec_entry_contains(
                                        #[trigger] self0.spec_entries()[w],
                                        f,
                                    ) && spec_bit(self0.spec_map(w), (f
                                        - self0.spec_entries()[w].base.0) / (PAGE_SIZE as int))
                            } else {
                                choose|w: int|
                                    0 <= w < self.spec_entries().len() && spec_entry_contains(
                                        #[trigger] self.spec_entries()[w],
                                        f,
                                    ) && spec_bit(self.spec_map(w), (f
                                        - self.spec_entries()[w].base.0) / (PAGE_SIZE as int))
                            };
                            if w == i {
                                let ew = self.spec_entries()[w];
                                if spec_entry_contains(ew, f) {
                                    lemma_frame_to_idx(ew.base.0, ew.size, f);
                                    let idx = (f - ew.base.0) / (PAGE_SIZE as int);
                                    assert(!(start <= idx < start + count.0)) by (nonlinear_arith)
                                        requires
                                            f == ew.base.0 + idx * PAGE_SIZE,
                                            address.0 == ew.base.0 + start * PAGE_SIZE,
                                            !(address.0 <= f < address.0 + count.0 * PAGE_SIZE),
                                            PAGE_SIZE == 4096,
                                            0 <= idx,
                                            0 <= start,
                                    ;
                                }
                            }
                        }
                    }
                    if forall|j: int|
                        0 <= j < count.0 ==> !self0.spec_is_free(
                            #[trigger] ((address.0 + j * PAGE_SIZE) as u64),
                        ) {
                        assert forall|j: int| 0 <= j < count.0 implies !spec_bit(
                            self0.spec_map(i as int),
                            #[trigger] (start + j),
                        ) by {
                            lemma_idx_to_frame(e.base.0, e.size, start + j);
                            assert(address.0 + j * PAGE_SIZE == e.base.0 + (start + j)
                                * PAGE_SIZE) by (nonlinear_arith)
                                requires
                                    address.0 == e.base.0 + start * PAGE_SIZE,
                                    PAGE_SIZE == 4096,
                            ;
                            let f = (address.0 + j * PAGE_SIZE) as u64;
                            assert(!self0.spec_is_free(f));
                            if spec_bit(self0.spec_map(i as int), start + j) {
                                assert(spec_entry_contains(self0.spec_entries()[i as int], f));
                                assert((f - e.base.0) / (PAGE_SIZE as int) == start + j);
                                assert(self0.spec_is_free(f));
                                assert(false);
                            }
                        }
                        assert(spec_count_prefix(self.spec_map(i as int), spec_entry_pages(e))
                            == spec_count_prefix(self0.spec_map(i as int), spec_entry_pages(e))
                            + count.0);
                    }
                }
                return true;
            }
            proof {
                assert(!((self.spec_entries()[i as int]).base.0 <= address.0 && address.0 + count.0
                    * PAGE_SIZE <= self.spec_entries()[i as int].base.0
                    + self.spec_entries()[i as int].size && (address.0
                    - self.spec_entries()[i as int].base.0) % (PAGE_SIZE as int) == 0)) by {
                    if self.spec_entries()[i as int].base.0 <= address.0 && address.0 + count.0
                        * PAGE_SIZE <= self.spec_entries()[i as int].base.0
                        + self.spec_entries()[i as int].size && (address.0
                        - self.spec_entries()[i as int].base.0) % (PAGE_SIZE as int) == 0 {
                        assert(count.0 <= (e.size - (address.0 - e.base.0)) as int / (
                        PAGE_SIZE as int)) by (nonlinear_arith)
                            requires
                                e == self.spec_entries()[i as int],
                                e.base.0 <= address.0,
                                address.0 + count.0 * PAGE_SIZE <= e.base.0 + e.size,
                                PAGE_SIZE == 4096,
                        ;
                        assert(false);
                    }
                }
            }
            i = i + 1;
        }
        false
    }
}

impl BuddyAllocator {
    /// The coalesced region table, in slot order.
    pub fn entries(&self) -> (r: &Vec<BuddyEntry>)
        ensures
            r@ == self.spec_entries(),
    {
        &self.entries
    }

    /// The frame holding the region table.
    pub fn table_phys(&self) -> (r: PhysicalAddress)
        ensures
            r.0 == self.spec_table_phys(),
    {
        self.table_phys
    }

    /// Bytes of the first `n` regions, counted from the front.
    pub open spec fn spec_size_upto(entries: Seq<BuddyEntry>, n: int) -> int
        decreases n,
    {
        if n <= 0 {
            0
        } else {
            Self::spec_size_upto(entries, n - 1) + entries[n - 1].size
        }
    }

    proof fn lemma_size_upto_is_size(entries: Seq<BuddyEntry>, n: int)
        requires
            0 <= n <= entries.len(),
        ensures
            Self::spec_size_upto(entries, n) == spec_entries_size(entries.take(n)),
        decreases n,
    {
        if n > 0 {
            Self::lemma_size_upto_is_size(entries, n - 1);
            assert(entries.take(n) =~= entries.take(n - 1).push(entries[n - 1]));
            lemma_entries_size_push(entries.take(n - 1), entries[n - 1]);
        }
    }

    proof fn lemma_total_vs_size(self, n: int)
        requires
            0 <= n <= self.spec_entries().len(),
            forall|i: int|
                0 <= i < self.spec_entries().len() ==> (#[trigger] self.spec_entries()[i]).size
                    % PAGE_SIZE == 0,
        ensures
            self.spec_total_upto(n) * PAGE_SIZE == Self::spec_size_upto(self.spec_entries(), n),
        decreases n,
    {
        if n > 0 {
            self.lemma_total_vs_size(n - 1);
            let e = self.spec_entries()[n - 1];
            assert(spec_entry_pages(e) * PAGE_SIZE == e.size) by (nonlinear_arith)
                requires
                    spec_entry_pages(e) == e.size as int / (PAGE_SIZE as int),
                    e.size % PAGE_SIZE == 0,
                    PAGE_SIZE == 4096,
            ;
        }
    }

    /// Build the allocator from a bump allocator: carve one table frame
    /// and the bitmap pages out of the regions, coalesce the boot areas
    /// into the region table exactly as the insertion spec says, and mark
    /// every frame past the bump cursor free.
    pub fn new(bump: BumpAllocator, mem: &mut Machine, clear_frees: bool) -> (r: Option<
        BuddyAllocator,
    >)
        requires
            bump.inv(old(mem).mem().len() as int),
        ensures
            final(mem).mem().len() == old(mem).mem().len(),
            final(mem).tlb_map() == old(mem).tlb_map(),
            final(mem).spec_table() == old(mem).spec_table(),
            r is Some <==> spec_bump_can_carve(
                bump.spec_areas(),
                bump.spec_offset() as int,
                spec_metadata_frames(bump.spec_areas()),
            ),
            match r {
                Some(b) => {
                    &&& b.inv(final(mem).mem().len() as int)
                    &&& b.spec_clear_frees() == clear_frees
                    &&& Some(b.spec_table_phys()) == bump.spec_allocate(1)
                    &&& (bump.spec_areas().len() <= BUDDY_ENTRIES ==> b.spec_total_frames()
                        * PAGE_SIZE == spec_areas_size(bump.spec_areas()))
                    &&& (bump.spec_areas().len() <= BUDDY_ENTRIES ==> forall|f: u64|
                        #[trigger] b.spec_is_free(f) <==> spec_bump_is_free(
                            bump.spec_areas(),
                            bump.spec_offset() + spec_metadata_frames(bump.spec_areas())
                                * PAGE_SIZE,
                            f,
                        ))
                    &&& ({
                        let coalesced = spec_coalesce(
                            bump.spec_areas(),
                            bump.spec_areas().len() as int,
                        );
                        &&& b.spec_entries().len() == coalesced.len()
                        &&& forall|i: int|
                            0 <= i < coalesced.len() ==> (#[trigger] b.spec_entries()[i]).base
                                == coalesced[i].base && b.spec_entries()[i].size
                                == coalesced[i].size
                    })
                },
                None => true,
            },
    {
        let ghost mem_len = old(mem).mem().len() as int;
        proof {
            mem.lemma_mem_bounded();
        }
        let mut bump_allocator = bump;
        let ghost areas_seq = bump_allocator.spec_areas();
        let ghost off0 = bump_allocator.spec_offset() as int;
        let ghost needed = spec_metadata_frames(areas_seq);
        let ghost c: int = 0;
        proof {
            lemma_meta_upto_mono(
                spec_coalesce(areas_seq, areas_seq.len() as int),
                0,
                spec_coalesce(areas_seq, areas_seq.len() as int).len() as int,
            );
            assert(needed >= 1);
        }
        // the region list outlives the cursor: copy it before carving
        let mut areas_copy: Vec<MemoryArea> = Vec::new();
        let n_areas = bump_allocator.areas().len();
        let mut ci: usize = 0;
        while ci < n_areas
            invariant
                areas_seq == bump_allocator.spec_areas(),
                n_areas == areas_seq.len(),
                ci <= n_areas,
                areas_copy@ == areas_seq.take(ci as int),
                bump_allocator == bump,
            decreases n_areas - ci,
        {
            let a = bump_allocator.areas()[ci];
            areas_copy.push(a);
            proof {
                assert(areas_copy@ =~= areas_seq.take(ci + 1 as int));
            }
            ci = ci + 1;
        }
        proof {
            assert(areas_copy@ =~= areas_seq);
        }
        // carve the table frame
        let table = match bump_allocator.allocate_one(mem) {
            Some(p) => {
                proof {
                    assert(spec_bump_fits(areas_seq, off0, 1 * (PAGE_SIZE as int)));
                    assert(spec_bump_fits(areas_seq, off0 + 0 * PAGE_SIZE, PAGE_SIZE as int));
                    lemma_carve_extend(areas_seq, off0, 0);
                    c = 1;
                    lemma_offset_step(off0, bump_allocator.spec_offset() as int);
                    assert(bump_allocator.spec_offset() as int == off0 + c * PAGE_SIZE);
                    assert(bump_allocator.spec_areas() == areas_seq);
                }
                p
            },
            None => {
                proof {
                    if spec_bump_fits(areas_seq, off0, 1 * (PAGE_SIZE as int)) {
                        lemma_fits_concat(areas_seq, off0, 1 * (PAGE_SIZE as int));
                        assert(false);
                    }
                    assert(!spec_bump_fits(areas_seq, off0 + 0 * PAGE_SIZE, PAGE_SIZE as int));
                    lemma_carve_blocked(areas_seq, off0, 0, needed);
                }
                return None;
            },
        };
        // coalesce the areas into the region table
        let mut entries: Vec<BuddyEntry> = Vec::new();
        let mut a_i: usize = 0;
        while a_i < n_areas
            invariant
                mem_len <= u64::MAX,
                spec_areas_wf(areas_seq, mem_len),
                areas_copy@ == areas_seq,
                n_areas == areas_seq.len(),
                a_i <= n_areas,
                entries@ == spec_coalesce(areas_seq, a_i as int),
                spec_entries_ok(entries@, mem_len),
                forall|i: int, r: int|
                    0 <= i < entries@.len() && a_i <= r < n_areas ==> spec_entry_area_disjoint(
                        #[trigger] entries@[i],
                        #[trigger] areas_seq[r],
                    ),
                spec_entries_size(entries@) <= spec_areas_size(areas_seq) - spec_areas_size(
                    areas_seq.skip(a_i as int),
                ),
                entries@.len() <= a_i,
                areas_seq.len() <= BUDDY_ENTRIES ==> spec_entries_size(entries@)
                    == spec_areas_size(areas_seq) - spec_areas_size(areas_seq.skip(a_i as int)),
                areas_seq.len() <= BUDDY_ENTRIES ==> forall|j: int|
                    0 <= j < a_i ==> exists|i: int|
                        0 <= i < entries@.len() && (#[trigger] entries@[i]).base.0
                            <= (#[trigger] areas_seq[j]).base.0 && areas_seq[j].base.0
                            + areas_seq[j].size <= entries@[i].base.0 + entries@[i].size,
            decreases n_areas - a_i,
        {
            let area = areas_copy[a_i];
            let ghost rest = areas_seq.skip(a_i + 1 as int);
            proof {
                assert(areas_seq.skip(a_i as int).drop_first() =~= rest);
                assert(areas_seq.skip(a_i as int)[0] == areas_seq[a_i as int]);
                assert(area.size >= PAGE_SIZE) by (nonlinear_arith)
                    requires
                        area.size > 0,
                        area.size % PAGE_SIZE == 0,
                        PAGE_SIZE == 4096,
                ;
                assert forall|r: int| 0 <= r < rest.len() implies (#[trigger] rest[r]).base.0
                    + rest[r].size <= area.base.0 || area.base.0 + area.size
                    <= rest[r].base.0 by {
                    assert(rest[r] == areas_seq[a_i + 1 + r]);
                }
                assert forall|r: int| 0 <= r < rest.len() implies (#[trigger] rest[r]).size
                    > 0 by {
                    assert(rest[r] == areas_seq[a_i + 1 + r]);
                }
                assert forall|i: int, r: int|
                    0 <= i < entries@.len() && 0 <= r < rest.len() implies
                    spec_entry_area_disjoint(#[trigger] entries@[i], #[trigger] rest[r]) by {
                    assert(rest[r] == areas_seq[a_i + 1 + r]);
                }
            }
            let ghost entries_pre_ins = entries@;
            coalesce_area(&mut entries, area, Ghost(mem_len), Ghost(rest));
            proof {
                assert(entries@ == spec_coalesce(areas_seq, a_i + 1 as int));
                if areas_seq.len() <= BUDDY_ENTRIES {
                    assert forall|j: int| 0 <= j < a_i + 1 implies exists|i: int|
                        0 <= i < entries@.len() && (#[trigger] entries@[i]).base.0
                            <= (#[trigger] areas_seq[j]).base.0 && areas_seq[j].base.0
                            + areas_seq[j].size <= entries@[i].base.0 + entries@[i].size by {
                        if j < a_i {
                            let w = choose|i: int|
                                0 <= i < entries_pre_ins.len() && (
                                #[trigger] entries_pre_ins[i]).base.0 <= areas_seq[j].base.0
                                    && areas_seq[j].base.0 + areas_seq[j].size
                                    <= entries_pre_ins[i].base.0 + entries_pre_ins[i].size;
                            assert(entries@[w].base.0 <= areas_seq[j].base.0 && areas_seq[j].base.0
                                + areas_seq[j].size <= entries@[w].base.0 + entries@[w].size);
                        } else {
                            assert(entries_pre_ins.len() < BUDDY_ENTRIES);
                        }
                    }
                }
                assert forall|i: int, r: int|
                    0 <= i < entries@.len() && a_i + 1 <= r < n_areas implies
                    spec_entry_area_disjoint(#[trigger] entries@[i], #[trigger] areas_seq[r]) by {
                    assert(areas_seq[r] == rest[r - (a_i + 1)]);
                }
                lemma_areas_size_nonneg(rest);
            }
            a_i = a_i + 1;
        }
        proof {
            assert(areas_seq.skip(n_areas as int).len() == 0);
            assert(spec_entries_size(entries@) <= mem_len);
        }
        // size the bitmap chains, carving their pages from the regions
        let ghost coalesced = entries@;
        proof {
            assert(coalesced == spec_coalesce(areas_seq, areas_seq.len() as int));
            assert(needed == 1 + spec_meta_upto(coalesced, coalesced.len() as int));
        }
        let mut maps: Vec<Vec<u8>> = Vec::new();
        let n_e = entries.len();
        let mut i: usize = 0;
        while i < n_e
            invariant
                mem_len <= u64::MAX,
                mem_len == old(mem).mem().len() as int,
                mem_len == mem.mem().len() as int,
                mem.tlb_map() == old(mem).tlb_map(),
                mem.spec_table() == old(mem).spec_table(),
                bump_allocator.inv(mem_len),
                bump_allocator.spec_areas() == areas_seq,
                areas_seq == bump.spec_areas(),
                off0 == bump.spec_offset() as int,
                needed == spec_metadata_frames(areas_seq),
                0 <= off0,
                0 <= c,
                c == 1 + spec_meta_upto(coalesced, i as int),
                spec_bump_can_carve(areas_seq, off0, c),
                bump_allocator.spec_offset() as int == off0 + c * PAGE_SIZE,
                needed == 1 + spec_meta_upto(coalesced, n_e as int),
                n_e == entries@.len(),
                entries@.len() == coalesced.len(),
                maps@.len() == i,
                i <= n_e,
                spec_entries_ok(entries@, mem_len),
                spec_entries_size(entries@) <= mem_len,
                spec_entries_size(entries@) == spec_entries_size(coalesced),
                forall|k: int|
                    0 <= k < n_e ==> (#[trigger] entries@[k]).base == coalesced[k].base
                        && entries@[k].size == coalesced[k].size,
                forall|k: int|
                    0 <= k < i ==> 8 * (#[trigger] maps@[k]@.len()) >= spec_entry_pages(
                        entries@[k],
                    ),
                forall|k: int, idx: int|
                    0 <= k < i && 0 <= idx < 8 * maps@[k]@.len() ==> !#[trigger] spec_bit(
                        maps@[k]@,
                        idx,
                    ),
            decreases n_e - i,
        {
            let e = entries[i];
            let pages: u64 = e.size / PAGE_SIZE;
            let map_pages: u64 = (pages + (MAP_PAGE_BITS - 1)) / MAP_PAGE_BITS;
            proof {
                assert(e.size == coalesced[i as int].size);
                assert(map_pages == spec_map_pages(coalesced[i as int]));
            }
            let mut head = PhysicalAddress::new(0);
            let mut mp: u64 = 0;
            while mp < map_pages
                invariant
                    mem_len == old(mem).mem().len() as int,
                    mem_len == mem.mem().len() as int,
                    mem.tlb_map() == old(mem).tlb_map(),
                    mem.spec_table() == old(mem).spec_table(),
                    bump_allocator.inv(mem_len),
                    bump_allocator.spec_areas() == areas_seq,
                    areas_seq == bump.spec_areas(),
                    off0 == bump.spec_offset() as int,
                    needed == spec_metadata_frames(areas_seq),
                    0 <= off0,
                    i < n_e,
                    n_e == coalesced.len(),
                    map_pages == spec_map_pages(coalesced[i as int]),
                    0 <= c,
                    c == 1 + spec_meta_upto(coalesced, i as int) + mp,
                    spec_bump_can_carve(areas_seq, off0, c),
                    bump_allocator.spec_offset() as int == off0 + c * PAGE_SIZE,
                    needed == 1 + spec_meta_upto(coalesced, n_e as int),
                    mp <= map_pages,
                decreases map_pages - mp,
            {
                let ghost off_here = bump_allocator.spec_offset() as int;
                match bump_allocator.allocate_one(mem) {
                    Some(p) => {
                        proof {
                            assert(spec_bump_fits(areas_seq, off_here, 1 * (PAGE_SIZE as int)));
                            assert(spec_bump_fits(
                                areas_seq,
                                off0 + c * PAGE_SIZE,
                                PAGE_SIZE as int,
                            ));
                            lemma_carve_extend(areas_seq, off0, c);
                            lemma_offset_step(off_here, bump_allocator.spec_offset() as int);
                            c = c + 1;
                            assert(bump_allocator.spec_offset() as int == off0 + c * PAGE_SIZE);
                        }
                        head = p;
                    },
                    None => {
                        proof {
                            if spec_bump_fits(areas_seq, off_here, 1 * (PAGE_SIZE as int)) {
                                lemma_fits_concat(areas_seq, off_here, 1 * (PAGE_SIZE as int));
                                assert(false);
                            }
                            assert(!spec_bump_fits(
                                areas_seq,
                                off0 + c * PAGE_SIZE,
                                PAGE_SIZE as int,
                            ));
                            assert(spec_meta_upto(coalesced, (i + 1) as int) == spec_meta_upto(
                                coalesced,
                                i as int,
                            ) + spec_map_pages(coalesced[i as int]));
                            lemma_meta_upto_mono(coalesced, (i + 1) as int, n_e as int);
                            assert(c < needed);
                            lemma_carve_blocked(areas_seq, off0, c, needed);
                        }
                        return None;
                    },
                }
                mp = mp + 1;
            }
            proof {
                assert(spec_meta_upto(coalesced, (i + 1) as int) == spec_meta_upto(
                    coalesced,
                    i as int,
                ) + spec_map_pages(coalesced[i as int]));
            }
            let ghost entries_before = entries@;
            entries[i] = BuddyEntry { base: e.base, size: e.size, map: head };
            proof {
                assert(entries@ == entries_before.update(i as int, entries@[i as int]));
                lemma_entries_size_update(entries_before, i as int, entries@[i as int]);
                assert(spec_entries_size(entries@) == spec_entries_size(entries_before));
            }
            proof {
                assert(8 * (map_pages * MAP_PAGE_BYTES) >= pages && map_pages * MAP_PAGE_BYTES
                    <= pages + MAP_PAGE_BITS) by (nonlinear_arith)
                    requires
                        map_pages == (pages + (MAP_PAGE_BITS - 1)) as int / (MAP_PAGE_BITS as int),
                        MAP_PAGE_BITS == 32704,
                        MAP_PAGE_BYTES == 4088,
                        pages >= 0,
                ;
                assert(pages <= mem_len / (PAGE_SIZE as int)) by (nonlinear_arith)
                    requires
                        pages == e.size as int / (PAGE_SIZE as int),
                        e.size <= mem_len,
                        PAGE_SIZE == 4096,
                        mem_len >= 0,
                ;
                mem.lemma_mem_bounded();
            }
            let bits_len: u64 = map_pages * MAP_PAGE_BYTES;
            let bits: Vec<u8> = vec![0u8; bits_len as usize];
            proof {
                assert forall|idx: int| 0 <= idx < 8 * bits@.len() implies !spec_bit(
                    bits@,
                    idx,
                ) by {
                    assert(0 <= idx / 8 < bits@.len()) by (nonlinear_arith)
                        requires
                            0 <= idx < 8 * bits@.len(),
                    ;
                    assert(bits@[idx / 8] == 0u8);
                    assert(0 <= idx % 8 < 8);
                    lemma_zero_byte_bits((idx % 8) as u64);
                }
            }
            maps.push(bits);
            i = i + 1;
        }
        proof {
            assert(c == needed);
            assert(spec_bump_can_carve(areas_seq, off0, needed));
        }
        let allocator = BuddyAllocator { table_phys: table, entries, maps, clear_frees };
        proof {
            // the assembled allocator is well formed: regions sane and
            // disjoint, bitmaps sized to their regions and all clear
            assert forall|k: int|
                0 <= k < allocator.spec_entries().len() implies 0 <= #[trigger] spec_entry_pages(
                allocator.spec_entries()[k],
            ) by {
                assert(spec_entry_ok(allocator.spec_entries()[k], mem_len));
            }
            allocator.lemma_total_vs_size(allocator.spec_entries().len() as int);
            Self::lemma_size_upto_is_size(
                allocator.spec_entries(),
                allocator.spec_entries().len() as int,
            );
            assert(allocator.spec_entries().take(allocator.spec_entries().len() as int)
                =~= allocator.spec_entries());
            assert(allocator.spec_total_upto(allocator.spec_entries().len() as int) <= mem_len / (
            PAGE_SIZE as int)) by (nonlinear_arith)
                requires
                    allocator.spec_total_upto(allocator.spec_entries().len() as int) * PAGE_SIZE
                        == spec_entries_size(allocator.spec_entries()),
                    spec_entries_size(allocator.spec_entries()) <= mem_len,
                    PAGE_SIZE == 4096,
            ;
            assert(allocator.inv(mem_len));
            if areas_seq.len() <= BUDDY_ENTRIES {
                assert(spec_areas_size(areas_seq.skip(n_areas as int)) == 0);
                assert(spec_entries_size(allocator.spec_entries()) == spec_areas_size(areas_seq));
            }
        }
        // mark every frame past the cursor free, region by region
        let mut allocator = allocator;
        let ghost offset_f = bump_allocator.spec_offset() as int;
        proof {
            if areas_seq.len() <= BUDDY_ENTRIES {
                // nothing is free before the marking begins
                assert forall|f: u64| !allocator.spec_is_free(f) by {
                    if allocator.spec_is_free(f) {
                        let w = choose|w: int|
                            0 <= w < allocator.spec_entries().len() && spec_entry_contains(
                                #[trigger] allocator.spec_entries()[w],
                                f,
                            ) && spec_bit(
                                allocator.spec_map(w),
                                (f - allocator.spec_entries()[w].base.0) / (PAGE_SIZE as int),
                            );
                        assert(false);
                    }
                }
            }
        }
        let mut area_offset: u64 = bump_allocator.offset();
        let mut a: usize = 0;
        while a < n_areas
            invariant
                mem_len <= u64::MAX,
                mem_len == old(mem).mem().len() as int,
                mem_len == mem.mem().len() as int,
                mem.tlb_map() == old(mem).tlb_map(),
                mem.spec_table() == old(mem).spec_table(),
                areas_copy@ == areas_seq,
                spec_areas_wf(areas_seq, mem_len),
                n_areas == areas_seq.len(),
                a <= n_areas,
                allocator.inv(mem_len),
                allocator.spec_clear_frees() == clear_frees,
                allocator.spec_table_phys() == table.0,
                allocator.spec_entries().len() == coalesced.len(),
                forall|k: int|
                    0 <= k < coalesced.len() ==> (#[trigger] allocator.spec_entries()[k]).base
                        == coalesced[k].base && allocator.spec_entries()[k].size
                        == coalesced[k].size,
                areas_seq.len() <= BUDDY_ENTRIES ==> allocator.spec_total_frames() * PAGE_SIZE
                    == spec_areas_size(areas_seq),
                0 <= offset_f,
                offset_f % (PAGE_SIZE as int) == 0,
                area_offset == spec_bump_rem(areas_seq, offset_f, a as int),
                area_offset % PAGE_SIZE == 0,
                areas_seq.len() <= BUDDY_ENTRIES ==> forall|j: int|
                    0 <= j < n_areas ==> exists|i: int|
                        0 <= i < coalesced.len() && (#[trigger] coalesced[i]).base.0
                            <= (#[trigger] areas_seq[j]).base.0 && areas_seq[j].base.0
                            + areas_seq[j].size <= coalesced[i].base.0 + coalesced[i].size,
                areas_seq.len() <= BUDDY_ENTRIES ==> forall|f: u64, j: int|
                    0 <= j < a && (#[trigger] areas_seq[j]).base.0 <= f && f + PAGE_SIZE
                        <= areas_seq[j].base.0 + areas_seq[j].size && (f - areas_seq[j].base.0) % (
                    PAGE_SIZE as int) == 0 ==> ((#[trigger] allocator.spec_is_free(f))
                        <==> spec_bump_is_free(areas_seq, offset_f, f)),
                areas_seq.len() <= BUDDY_ENTRIES ==> forall|f: u64|
                    #[trigger] allocator.spec_is_free(f) ==> spec_bump_is_free(
                        areas_seq,
                        offset_f,
                        f,
                    ),
            decreases n_areas - a,
        {
            let ghost alloc_pre = allocator;
            let area = areas_copy[a];
            proof {
                lemma_rem_step(areas_seq, offset_f, a as int);
            }
            if area_offset < area.size {
                let addr = area.base.add(area_offset);
                let frames = (area.size - area_offset) / PAGE_SIZE;
                proof {
                    assert(frames * PAGE_SIZE == area.size - area_offset && addr.0 % PAGE_SIZE
                        == 0) by (nonlinear_arith)
                        requires
                            frames == (area.size - area_offset) as int / (PAGE_SIZE as int),
                            area.size % PAGE_SIZE == 0,
                            area_offset % PAGE_SIZE == 0,
                            area_offset <= area.size,
                            area.base.0 % PAGE_SIZE == 0,
                            addr.0 == area.base.0 + area_offset,
                            PAGE_SIZE == 4096,
                    ;
                    if areas_seq.len() <= BUDDY_ENTRIES {
                        // the area lies inside one coalesced region, so the
                        // run is accepted
                        let w = choose|i: int|
                            0 <= i < coalesced.len() && (#[trigger] coalesced[i]).base.0
                                <= area.base.0 && area.base.0 + area.size <= coalesced[i].base.0
                                + coalesced[i].size;
                        let e = allocator.spec_entries()[w];
                        assert(e.base == coalesced[w].base && e.size == coalesced[w].size);
                        assert((addr.0 - e.base.0) % (PAGE_SIZE as int) == 0) by (nonlinear_arith)
                            requires
                                addr.0 % PAGE_SIZE == 0,
                                e.base.0 % PAGE_SIZE == 0,
                                e.base.0 <= addr.0,
                                PAGE_SIZE == 4096,
                        ;
                        assert(allocator.spec_can_free(addr.0, frames));
                    }
                }
                let accepted = allocator.free_frames(mem, addr, FrameCount::new(frames));
                proof {
                    if areas_seq.len() <= BUDDY_ENTRIES {
                        assert(accepted);
                        // the marked frames are exactly this area's frames
                        // past the leftover cursor
                        assert forall|f: u64| #[trigger] allocator.spec_is_free(f) implies
                            spec_bump_is_free(areas_seq, offset_f, f) by {
                            if addr.0 <= f < addr.0 + frames * PAGE_SIZE {
                                lemma_is_free_aligned(allocator, f, mem_len);
                                assert((f - area.base.0) % (PAGE_SIZE as int) == 0
                                    && area.base.0 <= f && f + PAGE_SIZE <= area.base.0
                                    + area.size && f - area.base.0
                                    >= area_offset) by (nonlinear_arith)
                                    requires
                                        f % PAGE_SIZE == 0,
                                        addr.0 == area.base.0 + area_offset,
                                        area.base.0 % PAGE_SIZE == 0,
                                        area_offset % PAGE_SIZE == 0,
                                        addr.0 <= f,
                                        f < addr.0 + frames * PAGE_SIZE,
                                        frames * PAGE_SIZE == area.size - area_offset,
                                        PAGE_SIZE == 4096,
                                ;
                                lemma_bump_free_at_area(
                                    areas_seq,
                                    mem_len,
                                    offset_f,
                                    a as int,
                                    f,
                                );
                            } else {
                                assert(allocator.spec_is_free(f) == alloc_pre.spec_is_free(f));
                            }
                        }
                        assert forall|f: u64, j: int|
                            0 <= j < a + 1 && (#[trigger] areas_seq[j]).base.0 <= f && f
                                + PAGE_SIZE <= areas_seq[j].base.0 + areas_seq[j].size && (f
                                - areas_seq[j].base.0) % (PAGE_SIZE as int) == 0 implies ((
                        #[trigger] allocator.spec_is_free(f)) <==> spec_bump_is_free(
                            areas_seq,
                            offset_f,
                            f,
                        )) by {
                            if j == a {
                                lemma_bump_free_at_area(
                                    areas_seq,
                                    mem_len,
                                    offset_f,
                                    a as int,
                                    f,
                                );
                                if f - area.base.0 >= area_offset {
                                    let k = (f - area.base.0 - area_offset) / (PAGE_SIZE as int);
                                    assert(0 <= k < frames && f == addr.0 + k
                                        * PAGE_SIZE) by (nonlinear_arith)
                                        requires
                                            k == (f - area.base.0 - area_offset) / (
                                            PAGE_SIZE as int),
                                            (f - area.base.0) % (PAGE_SIZE as int) == 0,
                                            area_offset % PAGE_SIZE == 0,
                                            f - area.base.0 >= area_offset,
                                            f + PAGE_SIZE <= area.base.0 + area.size,
                                            frames * PAGE_SIZE == area.size - area_offset,
                                            addr.0 == area.base.0 + area_offset,
                                            PAGE_SIZE == 4096,
                                    ;
                                    assert(allocator.spec_is_free((addr.0 + k * PAGE_SIZE) as u64));
                                } else {
                                    assert(!(addr.0 <= f < addr.0 + frames * PAGE_SIZE));
                                    assert(allocator.spec_is_free(f) == alloc_pre.spec_is_free(f));
                                    if alloc_pre.spec_is_free(f) {
                                        assert(spec_bump_is_free(areas_seq, offset_f, f));
                                        assert(false);
                                    }
                                }
                            } else {
                                assert(areas_seq[j].base.0 + areas_seq[j].size <= areas_seq[a as int].base.0
                                    || areas_seq[a as int].base.0 + areas_seq[a as int].size
                                    <= areas_seq[j].base.0);
                                assert(!(addr.0 <= f < addr.0 + frames * PAGE_SIZE));
                                assert(allocator.spec_is_free(f) == alloc_pre.spec_is_free(f));
                            }
                        }
                    }
                }
                area_offset = 0;
            } else {
                proof {
                    if areas_seq.len() <= BUDDY_ENTRIES {
                        assert forall|f: u64, j: int|
                            0 <= j < a + 1 && (#[trigger] areas_seq[j]).base.0 <= f && f
                                + PAGE_SIZE <= areas_seq[j].base.0 + areas_seq[j].size && (f
                                - areas_seq[j].base.0) % (PAGE_SIZE as int) == 0 implies ((
                        #[trigger] allocator.spec_is_free(f)) <==> spec_bump_is_free(
                            areas_seq,
                            offset_f,
                            f,
                        )) by {
                            if j == a {
                                lemma_bump_free_at_area(
                                    areas_seq,
                                    mem_len,
                                    offset_f,
                                    a as int,
                                    f,
                                );
                                if allocator.spec_is_free(f) {
                                    assert(spec_bump_is_free(areas_seq, offset_f, f));
                                    assert(false);
                                }
                            }
                        }
                    }
                }
                area_offset = area_offset - area.size;
            }
            a = a + 1;
        }
        proof {
            if areas_seq.len() <= BUDDY_ENTRIES {
                assert forall|f: u64|
                    #[trigger] allocator.spec_is_free(f) <==> spec_bump_is_free(
                        areas_seq,
                        offset_f,
                        f,
                    ) by {
                    if spec_bump_is_free(areas_seq, offset_f, f) {
                        lemma_free_in_some_area(areas_seq, offset_f, f);
                    }
                }
                assert(offset_f == bump.spec_offset() + spec_metadata_frames(bump.spec_areas())
                    * PAGE_SIZE);
            }
        }
        Some(allocator)
    }
}

impl FrameAllocator for BuddyAllocator {
    open spec fn inv(&self, mem_len: int) -> bool {
        &&& self.spec_entries().len() == self.spec_maps_len()
        &&& self.spec_entries().len() <= BUDDY_ENTRIES
        &&& forall|i: int|
            0 <= i < self.spec_entries().len() ==> {
                let e = #[trigger] self.spec_entries()[i];
                &&& e.size >= PAGE_SIZE
                &&& e.size % PAGE_SIZE == 0
                &&& e.base.0 % PAGE_SIZE == 0
                &&& e.base.0 + e.size <= mem_len
            }
        &&& forall|i: int, j: int|
            0 <= i < self.spec_entries().len() && 0 <= j < self.spec_entries().len() && i != j
                ==> (#[trigger] self.spec_entries()[i]).base.0 + self.spec_entries()[i].size <= (
            #[trigger] self.spec_entries()[j]).base.0 || self.spec_entries()[j].base.0
                + self.spec_entries()[j].size <= self.spec_entries()[i].base.0
        &&& forall|i: int|
            0 <= i < self.spec_entries().len() ==> 8 * (#[trigger] self.spec_map(i)).len()
                >= spec_entry_pages(self.spec_entries()[i])
        &&& forall|i: int, idx: int|
            0 <= i < self.spec_entries().len() && spec_entry_pages(self.spec_entries()[i]) <= idx
                < 8 * self.spec_map(i).len() ==> !#[trigger] spec_bit(self.spec_map(i), idx)
        &&& self.spec_total_upto(self.spec_entries().len() as int) <= mem_len / (PAGE_SIZE as int)
    }

    open spec fn spec_is_free(&self, frame: u64) -> bool {
        exists|i: int|
            0 <= i < self.spec_entries().len() && spec_entry_contains(
                #[trigger] self.spec_entries()[i],
                frame,
            ) && spec_bit(self.spec_map(i), (frame - self.spec_entries()[i].base.0) / (
            PAGE_SIZE as int))
    }

    open spec fn spec_total_frames(&self) -> int {
        self.spec_total_upto(self.spec_entries().len() as int)
    }

    open spec fn spec_used_frames(&self) -> int {
        self.spec_total_frames() - self.spec_free_upto(self.spec_entries().len() as int)
    }

    open spec fn spec_allocate(&self, count: u64) -> Option<u64> {
        self.spec_scan(count, 0)
    }

    open spec fn spec_can_free(&self, address: u64, count: u64) -> bool {
        exists|i: int|
            0 <= i < self.spec_entries().len() && (#[trigger] self.spec_entries()[i]).base.0
                <= address && address + count * PAGE_SIZE <= self.spec_entries()[i].base.0
                + self.spec_entries()[i].size && (address - self.spec_entries()[i].base.0) % (
            PAGE_SIZE as int) == 0
    }

    open spec fn spec_layout(&self) -> Seq<MemoryArea> {
        self.spec_entries().map_values(
            |e: BuddyEntry| MemoryArea { base: e.base, size: e.size },
        )
    }

    open spec fn spec_usage_wf(&self) -> bool {
        &&& self.spec_entries().len() == self.spec_maps_len()
        &&& forall|i: int|
            0 <= i < self.spec_entries().len() ==> 0 <= #[trigger] spec_entry_pages(
                self.spec_entries()[i],
            )
        &&& forall|i: int|
            0 <= i < self.spec_entries().len() ==> 8 * (#[trigger] self.spec_map(i)).len()
                >= spec_entry_pages(self.spec_entries()[i])
        &&& self.spec_total_frames() <= u64::MAX
    }

    #[verifier::rlimit(100)]
    fn allocate(&mut self, mem: &mut Machine, count: FrameCount) -> (r: Option<PhysicalAddress>) {
        let ghost self0 = *self;
        let ghost m0 = *mem;
        let ghost mem_len = mem.mem().len() as int;
        proof {
            mem.lemma_mem_bounded();
        }
        let n = self.entries.len();
        if count.0 == 0 {
            proof {
                assert forall|j: int| 0 <= j < n implies #[trigger] self0.spec_fit_in(
                    j,
                    count.0,
                ) is None by {}
                self0.lemma_scan_skip(count.0, n as int);
            }
            return None;
        }
        let mut i: usize = 0;
        while i < n
            invariant
                self0 == *old(self),
                m0 == *old(mem),
                *self == self0,
                *mem == m0,
                self0.inv(mem_len),
                mem_len == m0.mem().len() as int,
                mem_len <= u64::MAX,
                count.0 >= 1,
                n == self.spec_entries().len(),
                i <= n,
                forall|j: int| 0 <= j < i ==> #[trigger] self0.spec_fit_in(j, count.0) is None,
            decreases n - i,
        {
            let e = self.entries[i];
            let pages: u64 = e.size / PAGE_SIZE;
            let ghost bits = self.spec_map(i as int);
            let mut b: u64 = 0;
            let mut run: u64 = 0;
            let mut found: u64 = 0;
            let mut have: bool = false;
            while b < pages && !have
                invariant
                    *self == self0,
                    *mem == m0,
                    self0.inv(mem_len),
                    i < n,
                    n == self.spec_entries().len(),
                    e == self.spec_entries()[i as int],
                    bits == self.spec_map(i as int),
                    pages == spec_entry_pages(e),
                    count.0 >= 1,
                    b <= pages,
                    run <= b,
                    !have ==> run < count.0,
                    forall|k: int| b - run <= k < b ==> #[trigger] spec_bit(bits, k),
                    run < b ==> !spec_bit(bits, b - run - 1),
                    forall|ss: int|
                        0 <= ss && ss + count.0 <= b && !have ==> !spec_run_at(
                            bits,
                            ss,
                            count.0 as int,
                        ),
                    have ==> spec_first_fit(bits, pages as int, count.0 as int, 0) == Some(
                        found as int,
                    ),
                    have ==> found + count.0 <= pages,
                    have ==> spec_run_at(bits, found as int, count.0 as int),
                decreases pages - b,
            {
                proof {
                    vstd::std_specs::vec::axiom_spec_len(&self.maps);
                    assert(8 * self.spec_map(i as int).len() >= spec_entry_pages(
                        self.spec_entries()[i as int],
                    ));
                    assert((b as int) / 8 < self.spec_map(i as int).len()) by (nonlinear_arith)
                        requires
                            (b as int) < spec_entry_pages(self.spec_entries()[i as int]),
                            8 * self.spec_map(i as int).len() >= spec_entry_pages(
                                self.spec_entries()[i as int],
                            ),
                    ;
                    vstd::std_specs::vec::axiom_spec_len(&self.maps[i as int]);
                }
                let byte: u8 = self.maps[i][(b / 8) as usize];
                let kbit: u64 = b % 8;
                proof {
                    lemma_bit_value(byte, kbit);
                }
                if ((byte as u64) >> kbit) & 1 == 1 {
                    proof {
                        assert(spec_bit(bits, b as int));
                    }
                    run = run + 1;
                    if run == count.0 {
                        found = b + 1 - count.0;
                        have = true;
                        proof {
                            assert(spec_run_at(bits, found as int, count.0 as int)) by {
                                assert forall|k: int| 0 <= k < count.0 implies #[trigger] spec_bit(
                                    bits,
                                    found + k,
                                ) by {
                                    assert(found + k <= b);
                                }
                            }
                            lemma_first_fit_found(
                                bits,
                                pages as int,
                                count.0 as int,
                                found as int,
                            );
                        }
                    }
                } else {
                    proof {
                        assert(!spec_bit(bits, b as int));
                        assert forall|ss: int|
                            0 <= ss && ss + count.0 <= b + 1 implies !spec_run_at(
                            bits,
                            ss,
                            count.0 as int,
                        ) by {
                            if ss + count.0 == b + 1 {
                                assert(!spec_bit(bits, b as int));
                                assert(!spec_bit(bits, ss + (count.0 - 1)));
                            }
                        }
                    }
                    run = 0;
                }
                b = b + 1;
                proof {
                    if !have && run < b {
                        assert(!spec_bit(bits, b - run - 1));
                    }
                    if !have {
                        assert forall|ss: int|
                            0 <= ss && ss + count.0 <= b implies !spec_run_at(
                            bits,
                            ss,
                            count.0 as int,
                        ) by {
                            if ss + count.0 == b {
                                if run < b {
                                    let w = b - run - 1 - ss;
                                    assert(0 <= w < count.0);
                                    assert(!spec_bit(bits, b - run - 1));
                                    assert(!spec_bit(bits, ss + w));
                                } else {
                                    assert(ss < 0);
                                }
                            }
                        }
                    }
                }
            }
            if have {
                // second pass: clear exactly the found run, zero its frames
                proof {
                    assert(found * PAGE_SIZE + count.0 * PAGE_SIZE <= e.size) by (nonlinear_arith)
                        requires
                            found + count.0 <= spec_entry_pages(e),
                            spec_entry_pages(e) == e.size as int / (PAGE_SIZE as int),
                            e.size % PAGE_SIZE == 0,
                            PAGE_SIZE == 4096,
                    ;
                }
                proof {
                    assert(e.base.0 + e.size <= mem_len);
                }
                let page_addr: u64 = e.base.0 + found * PAGE_SIZE;
                let mut k: u64 = 0;
                while k < count.0
                    invariant
                        self0.inv(mem_len),
                        mem_len <= u64::MAX,
                        self.spec_entries() == self0.spec_entries(),
                        self.maps@.len() == self0.maps@.len(),
                        *mem == m0,
                        i < n,
                        n == self.spec_entries().len(),
                        e == self.spec_entries()[i as int],
                        pages == spec_entry_pages(e),
                        count.0 >= 1,
                        k <= count.0,
                        found + count.0 <= pages,
                        bits == self0.spec_map(i as int),
                        self.spec_map(i as int).len() == bits.len(),
                        8 * bits.len() >= pages,
                        forall|j: int|
                            0 <= j < n && j != i ==> #[trigger] self.spec_map(j) == self0.spec_map(
                                j,
                            ),
                        forall|idx: int|
                            0 <= idx < 8 * bits.len() && !(found <= idx < found + k)
                                ==> #[trigger] spec_bit(self.spec_map(i as int), idx) == spec_bit(
                                bits,
                                idx,
                            ),
                        forall|idx: int|
                            found <= idx < found + k ==> !#[trigger] spec_bit(
                                self.spec_map(i as int),
                                idx,
                            ),
                        spec_count_prefix(self.spec_map(i as int), pages as int)
                            == spec_count_prefix(bits, pages as int) - k,
                        spec_run_at(bits, found as int, count.0 as int),
                    decreases count.0 - k,
                {
                    let ghost map_before = self.spec_map(i as int);
                    let bit_ix: u64 = found + k;
                    let byte_ix: u64 = bit_ix / 8;
                    proof {
                        assert(byte_ix < bits.len()) by (nonlinear_arith)
                            requires
                                byte_ix == bit_ix as int / 8,
                                bit_ix < pages,
                                8 * bits.len() >= pages,
                        ;
                        vstd::std_specs::vec::axiom_spec_len(&self.maps);
                        vstd::std_specs::vec::axiom_spec_len(&self.maps@[i as int]);
                    }
                    let ghost rows_before = self.maps@;
                    let ghost self_head = *self;
                    let kbit: u64 = bit_ix % 8;
                    let byte: u8 = self.maps[i][byte_ix as usize];
                    let nb: u8 = byte & !(1u8 << kbit);
                    self.maps[i][byte_ix as usize] = nb;
                    proof {
                        lemma_byte_clear(byte, kbit);
                        assert(self.maps@ == rows_before.update(i as int, self.maps@[i as int]));
                        assert forall|j: int| 0 <= j < n && j != i implies #[trigger] self
                            .spec_map(j) == self0.spec_map(j) by {
                            assert(self.maps@[j] == rows_before[j]);
                            assert(self_head.maps@[j] == rows_before[j]);
                            assert(self_head.spec_map(j) == self0.spec_map(j));
                        }
                        let map_after = self.spec_map(i as int);
                        assert(map_after == map_before.update(byte_ix as int, nb));
                        assert forall|idx: int|
                            0 <= idx < 8 * map_after.len() && idx != bit_ix implies
                            #[trigger] spec_bit(map_after, idx) == spec_bit(map_before, idx) by {
                            if idx / 8 == byte_ix {
                                assert(idx % 8 != kbit as int) by (nonlinear_arith)
                                    requires
                                        idx / 8 == bit_ix as int / 8,
                                        idx != bit_ix,
                                        kbit == bit_ix % 8,
                                        0 <= idx,
                                ;
                                assert(0 <= idx % 8 < 8);
                            }
                        }
                        assert(!spec_bit(map_after, bit_ix as int)) by {
                            assert(bit_ix as int % 8 == kbit && bit_ix as int / 8
                                == byte_ix as int);
                        }
                        assert(spec_bit(map_before, bit_ix as int)) by {
                            assert(spec_bit(bits, found + k));
                        }
                        lemma_count_prefix_flip(
                            map_before,
                            map_after,
                            pages as int,
                            bit_ix as int,
                        );
                    }
                    k = k + 1;
                }
                mem.zero_phys(page_addr, count.0 * PAGE_SIZE);
                proof {
                    // the scan result is the first fit of the first region
                    // that has one
                    self0.lemma_scan_skip(count.0, i as int);
                    assert(self0.spec_scan(count.0, i as int) == Some(page_addr));
                    // totals move by exactly the run length
                    self0.lemma_total_upto_congruent(*self, n as int);
                    self0.lemma_free_upto_update(*self, n as int, i as int);
                    // the run's frames were free and are no longer
                    assert forall|j: int|
                        0 <= j < count.0 implies self0.spec_is_free(
                        #[trigger] ((page_addr + j * PAGE_SIZE) as u64),
                    ) && !self.spec_is_free((page_addr + j * PAGE_SIZE) as u64) by {
                        lemma_idx_to_frame(e.base.0, e.size, found + j);
                        assert(page_addr + j * PAGE_SIZE == e.base.0 + (found + j) * PAGE_SIZE)
                            by (nonlinear_arith)
                            requires
                                page_addr == e.base.0 + found * PAGE_SIZE,
                                PAGE_SIZE == 4096,
                        ;
                        let f = (page_addr + j * PAGE_SIZE) as u64;
                        assert(spec_entry_contains(self0.spec_entries()[i as int], f));
                        assert(spec_bit(bits, found + j));
                        assert((f - e.base.0) / (PAGE_SIZE as int) == found + j);
                        if self.spec_is_free(f) {
                            let w = choose|w: int|
                                0 <= w < self.spec_entries().len() && spec_entry_contains(
                                    #[trigger] self.spec_entries()[w],
                                    f,
                                ) && spec_bit(self.spec_map(w), (f
                                    - self.spec_entries()[w].base.0) / (PAGE_SIZE as int));
                            assert(w == i);
                            assert(false);
                        }
                    }
                    // every other frame keeps its state
                    assert forall|f: u64|
                        !(page_addr <= f < page_addr + count.0 * PAGE_SIZE) implies
                        #[trigger] self.spec_is_free(f) == self0.spec_is_free(f) by {
                        if self0.spec_is_free(f) || self.spec_is_free(f) {
                            let w = if self0.spec_is_free(f) {
                                choose|w: int|
                                    0 <= w < self0.spec_entries().len() && spec_entry_contains(
                                        #[trigger] self0.spec_entries()[w],
                                        f,
                                    ) && spec_bit(self0.spec_map(w), (f
                                        - self0.spec_entries()[w].base.0) / (PAGE_SIZE as int))
                            } else {
                                choose|w: int|
                                    0 <= w < self.spec_entries().len() && spec_entry_contains(
                                        #[trigger] self.spec_entries()[w],
                                        f,
                                    ) && spec_bit(self.spec_map(w), (f
                                        - self.spec_entries()[w].base.0) / (PAGE_SIZE as int))
                            };
                            if w == i {
                                let ew = self.spec_entries()[w];
                                if spec_entry_contains(ew, f) {
                                    lemma_frame_to_idx(ew.base.0, ew.size, f);
                                    let idx = (f - ew.base.0) / (PAGE_SIZE as int);
                                    assert(!(found <= idx < found + count.0)) by (nonlinear_arith)
                                        requires
                                            f == ew.base.0 + idx * PAGE_SIZE,
                                            page_addr == ew.base.0 + found * PAGE_SIZE,
                                            !(page_addr <= f < page_addr + count.0 * PAGE_SIZE),
                                            PAGE_SIZE == 4096,
                                            0 <= idx,
                                            0 <= found,
                                    ;
                                }
                            }
                        }
                    }
                }
                return Some(PhysicalAddress::new(page_addr));
            }
            proof {
                assert forall|ss: int|
                    0 <= ss && ss + count.0 <= pages implies !spec_run_at(
                    bits,
                    ss,
                    count.0 as int,
                ) by {}
                lemma_first_fit_none(bits, pages as int, count.0 as int, 0);
            }
            i = i + 1;
        }
        proof {
            self0.lemma_scan_skip(count.0, n as int);
        }
        None
    }

    fn free(&mut self, mem: &mut Machine, address: PhysicalAddress, count: FrameCount) -> (r:
        bool) {
        self.free_frames(mem, address, count)
    }

    fn allocate_one(&mut self, mem: &mut Machine) -> (r: Option<PhysicalAddress>) {
        let r = self.allocate(mem, FrameCount::new(1));
        proof {
            if let Some(p) = r {
                assert((p.0 + 0 * PAGE_SIZE) as u64 == p.0);
            }
        }
        r
    }

    fn free_one(&mut self, mem: &mut Machine, address: PhysicalAddress) -> (r: bool) {
        let r = self.free(mem, address, FrameCount::new(1));
        proof {
            if r {
                assert((address.0 + 0 * PAGE_SIZE) as u64 == address.0);
            }
        }
        r
    }

    fn usage(&self) -> (r: FrameUsage) {
        let n = self.entries.len();
        let mut i: usize = 0;
        let mut free_frames: u64 = 0;
        let mut total_frames: u64 = 0;
        proof {
            self.lemma_free_upto_bounds(n as int);
        }
        while i < n
            invariant
                self.spec_usage_wf(),
                n == self.spec_entries().len(),
                i <= n,
                free_frames == self.spec_free_upto(i as int),
                total_frames == self.spec_total_upto(i as int),
                0 <= self.spec_free_upto(i as int) <= self.spec_total_upto(i as int)
                    <= self.spec_total_frames() <= u64::MAX,
            decreases n - i,
        {
            proof {
                self.lemma_free_upto_bounds(i + 1 as int);
                self.lemma_total_upto_mono(i + 1 as int, n as int);
            }
            let e = self.entries[i];
            let pages: u64 = e.size / PAGE_SIZE;
            let mut b: u64 = 0;
            let mut c: u64 = 0;
            proof {
                lemma_count_prefix_bounds(self.spec_map(i as int), pages as int);
            }
            while b < pages
                invariant
                    self.spec_usage_wf(),
                    i < self.spec_entries().len(),
                    pages == spec_entry_pages(self.spec_entries()[i as int]),
                    b <= pages,
                    c == spec_count_prefix(self.spec_map(i as int), b as int),
                    0 <= c <= b,
                    pages <= u64::MAX,
                decreases pages - b,
            {
                proof {
                    vstd::std_specs::vec::axiom_spec_len(&self.maps);
                }
                let byte_ix: usize = (b / 8) as usize;
                proof {
                    assert(8 * self.spec_map(i as int).len()
                        >= spec_entry_pages(self.spec_entries()[i as int]));
                    vstd::std_specs::vec::axiom_spec_len(&self.maps@[i as int]);
                }
                let byte: u8 = self.maps[i][byte_ix];
                let k: u64 = b % 8;
                proof {
                    lemma_bit_value(byte, k);
                }
                if ((byte as u64) >> k) & 1 == 1 {
                    c = c + 1;
                }
                b = b + 1;
            }
            free_frames = free_frames + c;
            total_frames = total_frames + pages;
            i = i + 1;
        }
        proof {
            self.lemma_free_upto_bounds(n as int);
        }
        FrameUsage::new(
            FrameCount::new(total_frames - free_frames),
            FrameCount::new(total_frames),
        )
    }
}

/// First-fit never returns a start whose run leaves the region.
proof fn lemma_first_fit_bounds(bits: Seq<u8>, pages: int, count: int, from: int)
    requires
        spec_first_fit(bits, pages, count, from) is Some,
    ensures
        from <= spec_first_fit(bits, pages, count, from).unwrap(),
        spec_first_fit(bits, pages, count, from).unwrap() + count <= pages,
    decreases pages - from,
{
    if !(count < 1 || from + count > pages) {
        if !spec_run_at(bits, from, count) {
            lemma_first_fit_bounds(bits, pages, count, from + 1);
        }
    }
}

/// No allocation ever straddles two regions: the returned run lies wholly
/// inside the one region whose bitmap satisfied it.
pub proof fn lemma_allocate_within_region(b: BuddyAllocator, count: u64, mem_len: int)
    requires
        mem_len <= u64::MAX,
        b.inv(mem_len),
        b.spec_allocate(count) is Some,
    ensures
        exists|i: int|
            0 <= i < b.spec_entries().len() && (#[trigger] b.spec_entries()[i]).base.0
                <= b.spec_allocate(count).unwrap() && b.spec_allocate(count).unwrap() + count
                * PAGE_SIZE <= b.spec_entries()[i].base.0 + b.spec_entries()[i].size,
{
    lemma_scan_within(b, count, 0, mem_len);
}

proof fn lemma_scan_within(b: BuddyAllocator, count: u64, from: int, mem_len: int)
    requires
        mem_len <= u64::MAX,
        b.inv(mem_len),
        0 <= from,
        b.spec_scan(count, from) is Some,
    ensures
        exists|i: int|
            0 <= i < b.spec_entries().len() && (#[trigger] b.spec_entries()[i]).base.0
                <= b.spec_scan(count, from).unwrap() && b.spec_scan(count, from).unwrap() + count
                * PAGE_SIZE <= b.spec_entries()[i].base.0 + b.spec_entries()[i].size,
    decreases b.spec_entries().len() - from,
{
    if from < b.spec_entries().len() {
        match b.spec_fit_in(from, count) {
            Some(st) => {
                let e = b.spec_entries()[from];
                lemma_first_fit_bounds(b.spec_map(from), spec_entry_pages(e), count as int, 0);
                assert((st + count) * PAGE_SIZE <= e.size && st * PAGE_SIZE >= 0)
                    by (nonlinear_arith)
                    requires
                        st + count <= spec_entry_pages(e),
                        0 <= st,
                        spec_entry_pages(e) == e.size as int / (PAGE_SIZE as int),
                        e.size % PAGE_SIZE == 0,
                        PAGE_SIZE == 4096,
                ;
                assert((st + count) * PAGE_SIZE == st * PAGE_SIZE + count * PAGE_SIZE)
                    by (nonlinear_arith);
                assert(e.base.0 <= b.spec_scan(count, from).unwrap());
            },
            None => {
                lemma_scan_within(b, count, from + 1, mem_len);
            },
        }
    }
}

/// First-fit reads the bitmap alone: equal bitmaps place equally.
proof fn lemma_first_fit_congruent(b1: Seq<u8>, b2: Seq<u8>, pages: int, count: int, from: int)
    requires
        0 <= from,
        forall|idx: int| 0 <= idx < pages ==> spec_bit(b2, idx) == spec_bit(b1, idx),
    ensures
        spec_first_fit(b2, pages, count, from) == spec_first_fit(b1, pages, count, from),
    decreases pages - from,
{
    if !(count < 1 || from + count > pages) {
        assert(spec_run_at(b2, from, count) == spec_run_at(b1, from, count)) by {
            if spec_run_at(b1, from, count) {
                assert forall|k: int| 0 <= k < count implies #[trigger] spec_bit(
                    b2,
                    from + k,
                ) by {
                    assert(spec_bit(b1, from + k));
                    assert(0 <= from + k < pages);
                }
            }
            if spec_run_at(b2, from, count) {
                assert forall|k: int| 0 <= k < count implies #[trigger] spec_bit(
                    b1,
                    from + k,
                ) by {
                    assert(spec_bit(b2, from + k));
                    assert(0 <= from + k < pages);
                }
            }
        }
        lemma_first_fit_congruent(b1, b2, pages, count, from + 1);
    }
}

/// The first-fit scan is a function of the regions and which frames are
/// free: an allocator whose layout and free frames match another's places
/// every allocation identically. Freeing a frame and allocating again
/// therefore returns exactly the frame just freed.
pub proof fn lemma_allocate_of_free_state(
    b1: BuddyAllocator,
    b2: BuddyAllocator,
    count: u64,
    mem_len: int,
)
    requires
        mem_len <= u64::MAX,
        b1.inv(mem_len),
        b2.inv(mem_len),
        b2.spec_layout() == b1.spec_layout(),
        forall|f: u64| b2.spec_is_free(f) == b1.spec_is_free(f),
    ensures
        b2.spec_allocate(count) == b1.spec_allocate(count),
{
    assert(b1.spec_layout().len() == b1.spec_entries().len());
    assert(b2.spec_layout().len() == b2.spec_entries().len());
    assert forall|i: int|
        0 <= i < b1.spec_entries().len() implies (#[trigger] b2.spec_entries()[i]).base
        == b1.spec_entries()[i].base && b2.spec_entries()[i].size == b1.spec_entries()[i].size by {
        assert(b1.spec_layout()[i] == MemoryArea {
            base: b1.spec_entries()[i].base,
            size: b1.spec_entries()[i].size,
        });
        assert(b2.spec_layout()[i] == MemoryArea {
            base: b2.spec_entries()[i].base,
            size: b2.spec_entries()[i].size,
        });
        assert(b2.spec_layout()[i] == b1.spec_layout()[i]);
    }
    lemma_scan_congruent(b1, b2, count, 0, mem_len);
}

proof fn lemma_scan_congruent(
    b1: BuddyAllocator,
    b2: BuddyAllocator,
    count: u64,
    from: int,
    mem_len: int,
)
    requires
        mem_len <= u64::MAX,
        b1.inv(mem_len),
        b2.inv(mem_len),
        b2.spec_entries().len() == b1.spec_entries().len(),
        forall|i: int|
            0 <= i < b1.spec_entries().len() ==> (#[trigger] b2.spec_entries()[i]).base
                == b1.spec_entries()[i].base && b2.spec_entries()[i].size
                == b1.spec_entries()[i].size,
        forall|f: u64| b2.spec_is_free(f) == b1.spec_is_free(f),
        0 <= from,
    ensures
        b2.spec_scan(count, from) == b1.spec_scan(count, from),
    decreases b1.spec_entries().len() - from,
{
    if from < b1.spec_entries().len() {
        let e = b1.spec_entries()[from];
        assert(b2.spec_entries()[from].base == e.base && b2.spec_entries()[from].size == e.size);
        assert(spec_entry_pages(b2.spec_entries()[from]) == spec_entry_pages(e));
        assert forall|idx: int|
            0 <= idx < spec_entry_pages(e) implies spec_bit(b2.spec_map(from), idx) == spec_bit(
            b1.spec_map(from),
            idx,
        ) by {
            lemma_idx_to_frame(e.base.0, e.size, idx);
            let f = (e.base.0 + idx * PAGE_SIZE) as u64;
            assert(spec_entry_contains(e, f));
            assert(b1.spec_is_free(f) == b2.spec_is_free(f));
            if spec_bit(b1.spec_map(from), idx) {
                assert(b1.spec_is_free(f));
                let w = choose|w: int|
                    0 <= w < b2.spec_entries().len() && spec_entry_contains(
                        #[trigger] b2.spec_entries()[w],
                        f,
                    ) && spec_bit(b2.spec_map(w), (f - b2.spec_entries()[w].base.0) / (
                    PAGE_SIZE as int));
                assert(w == from);
                assert((f - e.base.0) / (PAGE_SIZE as int) == idx);
            }
            if spec_bit(b2.spec_map(from), idx) {
                assert(b2.spec_is_free(f));
                let w = choose|w: int|
                    0 <= w < b1.spec_entries().len() && spec_entry_contains(
                        #[trigger] b1.spec_entries()[w],
                        f,
                    ) && spec_bit(b1.spec_map(w), (f - b1.spec_entries()[w].base.0) / (
                    PAGE_SIZE as int));
                assert(w == from);
                assert((f - e.base.0) / (PAGE_SIZE as int) == idx);
            }
        }
        lemma_first_fit_congruent(
            b1.spec_map(from),
            b2.spec_map(from),
            spec_entry_pages(e),
            count as int,
            0,
        );
        lemma_scan_congruent(b1, b2, count, from + 1, mem_len);
    }
}

/// Buddy conservation: the set bits across all the free maps are exactly
/// the frames not currently handed out, region by region.
pub proof fn lemma_buddy_conservation(b: BuddyAllocator)
    ensures
        b.spec_free_upto(b.spec_entries().len() as int) == b.spec_total_frames()
            - b.spec_used_frames(),
{
}

} // verus!
