//! Emulator boot and TLB discipline.

use rmm::BumpAllocator;
use rmm::EmulateArch;
use rmm::Machine;
use rmm::PageFlags;
use rmm::PageMapper;
use rmm::PhysicalAddress;
use rmm::VirtualAddress;

#[test]
fn emulator_boot() {
    let (mut machine, areas) = Machine::init();
    assert_eq!(areas.len(), 1);
    assert_eq!(areas[0].base.data(), 0x0010_0000);
    assert_eq!(areas[0].size, 0x0400_0000);

    // the root of the identity map is recursive
    assert_eq!(machine.get_table().data(), 0);
    assert_eq!(machine.read_phys_u64(511 * 8), 0x3);

    // reading through the identity map, then writing and reading back
    let virt = VirtualAddress::new(0x0010_0000);
    assert_eq!(machine.read(virt), 0);
    machine.write(virt, 0x5A);
    assert_eq!(machine.read(virt), 0x5A);
}

#[test]
fn tlb_discipline() {
    let (mut machine, areas) = Machine::init();
    let bump = BumpAllocator::new(areas, 0);
    let mut mapper: PageMapper<EmulateArch, BumpAllocator> =
        PageMapper::create(&mut machine, bump).unwrap();

    let flags = PageFlags::<EmulateArch>::new().write(true);
    let v1 = VirtualAddress::new(0x4000_0000);
    let p1 = PhysicalAddress::new(0x0200_0000);
    let flush = mapper.map_phys(&mut machine, v1, p1, flags).unwrap();
    flush.ignore();

    // nothing is observable until the new root is installed
    assert!(machine.translate(v1).is_none());
    mapper.make_current(&mut machine);
    assert!(mapper.is_current(&machine));
    let (t1, f1) = machine.translate(v1).unwrap();
    assert_eq!(t1.data(), 0x0200_0000);
    assert_eq!(f1, flags.data());

    // a later mapping appears only once its flush token is discharged
    let v2 = VirtualAddress::new(0x4020_0000);
    let p2 = PhysicalAddress::new(0x0210_0000);
    let flush2 = mapper.map_phys(&mut machine, v2, p2, flags).unwrap();
    assert!(machine.translate(v2).is_none());
    flush2.flush(&mut machine);
    let (t2, _) = machine.translate(v2).unwrap();
    assert_eq!(t2.data(), 0x0210_0000);

    // writing through the now-visible mapping lands in physical memory
    machine.write(VirtualAddress::new(0x4000_0123), 0x77);
    assert_eq!(machine.read_phys(0x0200_0123), 0x77);
}
