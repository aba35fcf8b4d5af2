//! Mapper behaviour over the emulated machine: map/translate round trips,
//! the linear map, intermediate-table reuse and reclamation.

use rmm::BuddyAllocator;
use rmm::BumpAllocator;
use rmm::EmulateArch;
use rmm::Flusher;
use rmm::FrameAllocator;
use rmm::Machine;
use rmm::PageFlags;
use rmm::PageMapper;
use rmm::PageTable;
use rmm::PhysicalAddress;
use rmm::TableKind;
use rmm::VirtualAddress;

#[test]
fn mapper_round_trip() {
    let (mut machine, areas) = Machine::init();
    let bump = BumpAllocator::new(areas, 0);
    let mut mapper: PageMapper<EmulateArch, BumpAllocator> =
        PageMapper::create(&mut machine, bump).unwrap();

    let flags = PageFlags::<EmulateArch>::new().write(true);
    let virt = VirtualAddress::new(0x2000_0000);
    let phys = PhysicalAddress::new(0x0030_0000);
    let flush = mapper.map_phys(&mut machine, virt, phys, flags).unwrap();
    flush.ignore();

    let (got, got_flags) = mapper.translate(&machine, virt).unwrap();
    assert_eq!(got.data(), 0x0030_0000);
    assert_eq!(got_flags.data(), flags.data());

    let flush = mapper.unmap_phys(&mut machine, virt, false).map(|(p, f, flush)| {
        assert_eq!(p.data(), 0x0030_0000);
        assert_eq!(f.data(), flags.data());
        flush
    });
    flush.unwrap().ignore();
    assert!(mapper.translate(&machine, virt).is_none());
}

#[test]
fn mapper_remap() {
    let (mut machine, areas) = Machine::init();
    let bump = BumpAllocator::new(areas, 0);
    let mut mapper: PageMapper<EmulateArch, BumpAllocator> =
        PageMapper::create(&mut machine, bump).unwrap();

    let ro = PageFlags::<EmulateArch>::new();
    let rw = ro.write(true);
    let virt = VirtualAddress::new(0x2000_0000);
    let phys = PhysicalAddress::new(0x0030_0000);
    // remapping an unmapped page fails with nothing changed
    assert!(mapper.remap(&mut machine, virt, rw).is_none());
    mapper.map_phys(&mut machine, virt, phys, ro).unwrap().ignore();
    mapper.remap(&mut machine, virt, rw).unwrap().ignore();
    let (got, got_flags) = mapper.translate(&machine, virt).unwrap();
    assert_eq!(got.data(), 0x0030_0000);
    assert_eq!(got_flags.data(), rw.data());
}

#[test]
fn mapper_linear_map() {
    let (mut machine, areas) = Machine::init();
    let base = areas[0].base.data();
    let size = areas[0].size;
    let bump = BumpAllocator::new(areas, 0);
    let mut mapper: PageMapper<EmulateArch, BumpAllocator> =
        PageMapper::create(&mut machine, bump).unwrap();

    let flags = PageFlags::<EmulateArch>::new().write(true);
    let mut p = base;
    while p < base + size {
        let (virt, flush) = mapper
            .map_linearly(&mut machine, PhysicalAddress::new(p), flags)
            .unwrap();
        assert_eq!(virt.data(), 0xFFFF_8000_0000_0000 + p);
        flush.ignore();
        p += 4096;
    }
    let mut p = base;
    while p < base + size {
        let virt = VirtualAddress::new(0xFFFF_8000_0000_0000 + p);
        let (got, got_flags) = mapper.translate(&machine, virt).unwrap();
        assert_eq!(got.data(), p);
        assert!(got_flags.has_write());
        assert!(!got_flags.has_execute());
        assert!(!got_flags.has_user());
        p += 4096;
    }
}

#[test]
fn table_reuse() {
    let (mut machine, areas) = Machine::init();
    let bump = BumpAllocator::new(areas, 0);
    let mut mapper: PageMapper<EmulateArch, BumpAllocator> =
        PageMapper::create(&mut machine, bump).unwrap();

    let flags = PageFlags::<EmulateArch>::new().write(true);
    let v1 = VirtualAddress::new(0x2000_0000);
    let v2 = VirtualAddress::new(0x2000_1000);
    mapper
        .map_phys(&mut machine, v1, PhysicalAddress::new(0x0030_0000), flags)
        .unwrap()
        .ignore();
    let used_after_first = mapper.allocator().usage().used().data();
    mapper
        .map_phys(&mut machine, v2, PhysicalAddress::new(0x0030_1000), flags)
        .unwrap()
        .ignore();
    // the second mapping shares every intermediate table with the first
    assert_eq!(mapper.allocator().usage().used().data(), used_after_first);
}

#[test]
fn mapper_unmap_parents() {
    let (mut machine, areas) = Machine::init();
    let bump = BumpAllocator::new(areas, 0);
    let buddy = BuddyAllocator::new(bump, &mut machine, false).unwrap();
    let mut mapper: PageMapper<EmulateArch, BuddyAllocator> =
        PageMapper::create(&mut machine, buddy).unwrap();

    let free_before = mapper.allocator().usage().free().data();
    let flags = PageFlags::<EmulateArch>::new().write(true);
    let virt = VirtualAddress::new(0x4000_0000);
    mapper.map(&mut machine, virt, flags).unwrap().ignore();
    // one data frame and three intermediate tables are in use
    assert_eq!(mapper.allocator().usage().free().data(), free_before - 4);
    mapper.unmap(&mut machine, virt, true).unwrap().ignore();
    assert_eq!(mapper.allocator().usage().free().data(), free_before);
    assert!(mapper.translate(&machine, virt).is_none());
}

#[test]
fn page_table_handles() {
    let (machine, _areas) = Machine::init();
    let top: PageTable<EmulateArch> = PageTable::top(&machine, TableKind::Kernel);
    assert_eq!(top.level(), 3);
    assert_eq!(top.phys().data(), 0);
    assert_eq!(top.base().data(), 0);
    assert_eq!(top.entry_base(1).unwrap().data(), 1u64 << 39);
    assert!(top.entry_base(512).is_none());
    assert_eq!(
        top.index_of(VirtualAddress::new(0xFFFF_8000_0000_0000)).unwrap(),
        256
    );
    // the boot identity tables: the root's first entry leads down to the
    // page-table level
    let pdp = top.next(&machine, 0).unwrap();
    assert_eq!(pdp.level(), 2);
    assert_eq!(pdp.phys().data(), 0x1000);
    let pd = pdp.next(&machine, 0).unwrap();
    let pt = pd.next(&machine, 0).unwrap();
    assert_eq!(pt.level(), 0);
    let entry = pt.entry(&machine, 5).unwrap();
    assert!(entry.present());
    assert_eq!(entry.address().data(), 5 * 4096);
    assert!(pt.next(&machine, 5).is_none());
}

#[test]
fn flush_tokens() {
    let (mut machine, _areas) = Machine::init();
    let flush = rmm::PageFlush::new(VirtualAddress::new(0x1000));
    let mut all = rmm::PageFlushAll::new();
    all.consume(flush);
    all.flush(&mut machine);
}

#[test]
fn table_handle_memory_access() {
    let (mut machine, _areas) = Machine::init();
    let top: PageTable<EmulateArch> = PageTable::top(&machine, TableKind::Kernel);
    // the handle's linear-map addresses
    assert_eq!(top.virt().data(), 0xFFFF_8000_0000_0000);
    assert_eq!(top.entry_virt(3).unwrap().data(), 0xFFFF_8000_0000_0018);
    assert!(top.entry_virt(512).is_none());
    // writing an entry through the handle is a raw table edit
    let mut pt = PageTable::<EmulateArch>::new(
        VirtualAddress::new(0),
        PhysicalAddress::new(0x3000),
        0,
    );
    let entry = rmm::PageEntry::encode(
        PhysicalAddress::new(0x0030_0000),
        PageFlags::<EmulateArch>::new().write(true),
    );
    pt.set_entry(&mut machine, 7, entry).unwrap();
    let back = pt.entry(&machine, 7).unwrap();
    assert_eq!(back.data(), entry.data());
    assert_eq!(back.address().data(), 0x0030_0000);
}

#[test]
fn mapper_wrapping_existing_roots() {
    let (mut machine, areas) = Machine::init();
    // wrap the active boot hierarchy and read through it
    let current: PageMapper<EmulateArch, BumpAllocator> =
        PageMapper::current(&machine, BumpAllocator::new(areas.clone(), 0));
    assert_eq!(current.table().phys().data(), machine.get_table().data());
    let (p, _f) = current
        .translate(&machine, VirtualAddress::new(0x0010_0000))
        .unwrap();
    assert_eq!(p.data(), 0x0010_0000);
    // wrapping by explicit root behaves the same
    let by_root: PageMapper<EmulateArch, BumpAllocator> = PageMapper::new(
        PhysicalAddress::new(0),
        BumpAllocator::new(areas, 0),
    );
    let (q, _f) = by_root
        .translate(&machine, VirtualAddress::new(0x0010_0000))
        .unwrap();
    assert_eq!(q.data(), 0x0010_0000);
    // after a full invalidation the machine still translates the identity map
    machine.invalidate_all();
    assert!(machine.translate(VirtualAddress::new(0x0010_0000)).is_some());
    assert!(machine.translate(VirtualAddress::new(0xFFFF_8000_0000_0000)).is_none());
}
