//! Bump and buddy allocator behaviour: cursor linearity, exhaustion,
//! coalescing, first-fit placement, conservation and round trips.

use rmm::BumpAllocator;
use rmm::BuddyAllocator;
use rmm::FrameAllocator;
use rmm::FrameCount;
use rmm::Machine;
use rmm::MemoryArea;
use rmm::PhysicalAddress;

fn area(base: u64, size: u64) -> MemoryArea {
    MemoryArea { base: PhysicalAddress::new(base), size }
}

#[test]
fn bump_exhaustion() {
    let mut machine = Machine::new(0x20000);
    let mut bump = BumpAllocator::new(vec![area(0x1000, 3 * 4096)], 0);
    assert_eq!(bump.allocate_one(&mut machine).unwrap().data(), 0x1000);
    assert_eq!(bump.allocate_one(&mut machine).unwrap().data(), 0x2000);
    assert_eq!(bump.allocate_one(&mut machine).unwrap().data(), 0x3000);
    assert!(bump.allocate_one(&mut machine).is_none());
    assert_eq!(bump.offset(), 3 * 4096);
}

#[test]
fn bump_linearity() {
    let mut machine = Machine::new(0x20000);
    let mut bump = BumpAllocator::new(vec![area(0x1000, 2 * 4096), area(0x8000, 2 * 4096)], 0);
    // the cursor advances one page per single-frame allocation and the
    // addresses follow the concatenation of the areas
    assert_eq!(bump.allocate_one(&mut machine).unwrap().data(), 0x1000);
    assert_eq!(bump.offset(), 4096);
    assert_eq!(bump.allocate_one(&mut machine).unwrap().data(), 0x2000);
    assert_eq!(bump.offset(), 2 * 4096);
    assert_eq!(bump.allocate_one(&mut machine).unwrap().data(), 0x8000);
    assert_eq!(bump.offset(), 3 * 4096);
    let usage = bump.usage();
    assert_eq!(usage.used().data(), 3);
    assert_eq!(usage.total().data(), 4);
}

#[test]
fn bump_run_stays_inside_one_area() {
    let mut machine = Machine::new(0x20000);
    let mut bump = BumpAllocator::new(vec![area(0x1000, 2 * 4096), area(0x8000, 4 * 4096)], 0);
    // a three-frame run does not fit the first area and is refused rather
    // than split across areas
    assert!(bump.allocate(&mut machine, FrameCount::new(3)).is_none());
    assert_eq!(bump.allocate_one(&mut machine).unwrap().data(), 0x1000);
    assert_eq!(bump.allocate_one(&mut machine).unwrap().data(), 0x2000);
    assert_eq!(
        bump.allocate(&mut machine, FrameCount::new(3)).unwrap().data(),
        0x8000
    );
}

#[test]
fn bump_zeroes_what_it_hands_out() {
    let mut machine = Machine::new(0x20000);
    machine.write_phys(0x1234, 0xAB);
    let mut bump = BumpAllocator::new(vec![area(0x1000, 3 * 4096)], 0);
    bump.allocate_one(&mut machine).unwrap();
    assert_eq!(machine.read_phys(0x1234), 0);
}

#[test]
fn buddy_coalesce() {
    let mut machine = Machine::new(0x20000);
    let bump = BumpAllocator::new(vec![area(0x1000, 0x4000), area(0x5000, 0x3000)], 0);
    let buddy = BuddyAllocator::new(bump, &mut machine, false).unwrap();
    assert_eq!(buddy.entries().len(), 1);
    assert_eq!(buddy.entries()[0].base.data(), 0x1000);
    assert_eq!(buddy.entries()[0].size, 0x7000);
    // the buddy table itself came from the first bump frame
    assert_eq!(buddy.table_phys().data(), 0x1000);
    // two metadata frames are reserved out of seven
    let usage = buddy.usage();
    assert_eq!(usage.total().data(), 7);
    assert_eq!(usage.used().data(), 2);
    assert_eq!(usage.free().data(), 5);
}

#[test]
fn buddy_alloc_free() {
    let mut machine = Machine::new(0x40000);
    let bump = BumpAllocator::new(vec![area(0x1000, 10 * 4096)], 0);
    let mut buddy = BuddyAllocator::new(bump, &mut machine, false).unwrap();
    // table and one map page reserved: eight frames free
    assert_eq!(buddy.usage().free().data(), 8);

    let mut got = Vec::new();
    for i in 0..16 {
        let r = buddy.allocate_one(&mut machine);
        if i < 8 {
            got.push(r.unwrap().data());
        } else {
            assert!(r.is_none());
        }
    }
    // ascending first-fit placement
    for i in 0..8 {
        assert_eq!(got[i], 0x3000 + (i as u64) * 4096);
    }
    // free the even-indexed frames, then allocate them back in order
    for i in [0usize, 2, 4, 6] {
        assert!(buddy.free_one(&mut machine, PhysicalAddress::new(got[i])));
    }
    assert_eq!(buddy.usage().free().data(), 4);
    for i in [0usize, 2, 4, 6] {
        assert_eq!(buddy.allocate_one(&mut machine).unwrap().data(), got[i]);
    }
    assert!(buddy.allocate_one(&mut machine).is_none());
}

#[test]
fn buddy_round_trip() {
    let mut machine = Machine::new(0x40000);
    let bump = BumpAllocator::new(vec![area(0x1000, 10 * 4096)], 0);
    let mut buddy = BuddyAllocator::new(bump, &mut machine, false).unwrap();
    let f = buddy.allocate_one(&mut machine).unwrap();
    assert!(buddy.free_one(&mut machine, f));
    // the first-fit scan re-selects the frame just freed
    assert_eq!(buddy.allocate_one(&mut machine).unwrap().data(), f.data());
}

#[test]
fn buddy_conservation() {
    let mut machine = Machine::new(0x40000);
    let bump = BumpAllocator::new(vec![area(0x1000, 10 * 4096)], 0);
    let mut buddy = BuddyAllocator::new(bump, &mut machine, false).unwrap();
    let total = buddy.usage().total().data();
    let mut held = Vec::new();
    held.push(buddy.allocate(&mut machine, FrameCount::new(2)).unwrap());
    held.push(buddy.allocate_one(&mut machine).unwrap());
    let usage = buddy.usage();
    assert_eq!(usage.total().data(), total);
    assert_eq!(usage.used().data() + usage.free().data(), total);
    assert_eq!(usage.free().data(), 8 - 3);
    assert!(buddy.free(&mut machine, held[0], FrameCount::new(2)));
    let usage = buddy.usage();
    assert_eq!(usage.free().data(), 8 - 1);
    assert_eq!(usage.used().data() + usage.free().data(), total);
}

#[test]
fn buddy_multi_frame_runs() {
    let mut machine = Machine::new(0x40000);
    let bump = BumpAllocator::new(vec![area(0x1000, 10 * 4096)], 0);
    let mut buddy = BuddyAllocator::new(bump, &mut machine, false).unwrap();
    // eight free frames: a run of three, then a run of five, then nothing
    let a = buddy.allocate(&mut machine, FrameCount::new(3)).unwrap();
    assert_eq!(a.data(), 0x3000);
    let b = buddy.allocate(&mut machine, FrameCount::new(5)).unwrap();
    assert_eq!(b.data(), 0x6000);
    assert!(buddy.allocate_one(&mut machine).is_none());
    // freeing the first run re-opens exactly a three-frame hole
    assert!(buddy.free(&mut machine, a, FrameCount::new(3)));
    assert!(buddy.allocate(&mut machine, FrameCount::new(4)).is_none());
    assert_eq!(buddy.allocate(&mut machine, FrameCount::new(3)).unwrap().data(), 0x3000);
}

#[test]
fn buddy_rejects_foreign_frames() {
    let mut machine = Machine::new(0x40000);
    let bump = BumpAllocator::new(vec![area(0x1000, 10 * 4096)], 0);
    let mut buddy = BuddyAllocator::new(bump, &mut machine, false).unwrap();
    // a frame outside every region is not accepted
    assert!(!buddy.free_one(&mut machine, PhysicalAddress::new(0x2000_0000)));
    // a misaligned address is not accepted either
    assert!(!buddy.free_one(&mut machine, PhysicalAddress::new(0x3123)));
}

#[test]
fn buddy_clear_frees_zeroes_pages() {
    let mut machine = Machine::new(0x40000);
    let bump = BumpAllocator::new(vec![area(0x1000, 10 * 4096)], 0);
    let mut buddy = BuddyAllocator::new(bump, &mut machine, true).unwrap();
    let f = buddy.allocate_one(&mut machine).unwrap();
    machine.write_phys(f.data() + 5, 0xCD);
    assert!(buddy.free_one(&mut machine, f));
    assert_eq!(machine.read_phys(f.data() + 5), 0);
}
