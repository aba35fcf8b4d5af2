//! Address, flag-builder and entry-word behaviour on concrete values.

use rmm::AArch64Arch;
use rmm::EmulateArch;
use rmm::FrameCount;
use rmm::FrameUsage;
use rmm::PageEntry;
use rmm::PageFlags;
use rmm::PhysicalAddress;
use rmm::RiscV64Sv48Arch;
use rmm::TableKind;
use rmm::VirtualAddress;
use rmm::X8664Arch;

#[test]
fn address_kinds() {
    assert_eq!(VirtualAddress::new(0x1000).kind(), TableKind::User);
    assert_eq!(VirtualAddress::new(0xFFFF_8000_0000_0000).kind(), TableKind::Kernel);
    assert_eq!(PhysicalAddress::new(0x5000).add(0x123).data(), 0x5123);
    assert_eq!(VirtualAddress::new(0x5000).add(0x123).data(), 0x5123);
}

#[test]
fn frame_usage_accounting() {
    let usage = FrameUsage::new(FrameCount::new(2), FrameCount::new(5));
    assert_eq!(usage.used().data(), 2);
    assert_eq!(usage.free().data(), 3);
    assert_eq!(usage.total().data(), 5);
}

#[test]
fn flag_polarity_x86_64() {
    let flags = PageFlags::<X8664Arch>::new();
    assert_eq!(flags.data(), 0x8000_0000_0000_0001);
    assert!(!flags.has_write());
    assert!(!flags.has_execute());
    let rw = flags.write(true);
    assert_eq!(rw.data(), 0x8000_0000_0000_0003);
    assert!(rw.has_write());
    let rwx = rw.execute(true);
    assert_eq!(rwx.data(), 0x3);
    assert!(rwx.has_execute());
    assert!(rw.write(false).data() == 0x8000_0000_0000_0001);
    assert!(flags.user(true).has_user());
}

#[test]
fn flag_polarity_aarch64() {
    let flags = PageFlags::<AArch64Arch>::new();
    assert_eq!(flags.data(), 0x0060_0000_0000_0483);
    assert!(!flags.has_write());
    assert!(!flags.has_execute());
    let rw = flags.write(true);
    assert_eq!(rw.data(), 0x0060_0000_0000_0403);
    assert!(rw.has_write());
    let x = flags.execute(true);
    assert_eq!(x.data(), 0x483);
    assert!(x.has_execute());
}

#[test]
fn flag_polarity_sv48() {
    let flags = PageFlags::<RiscV64Sv48Arch>::new();
    assert_eq!(flags.data(), 0x3);
    assert!(!flags.has_write());
    let rw = flags.write(true);
    assert_eq!(rw.data(), 0x7);
    assert!(rw.has_write());
    let x = flags.execute(true);
    assert_eq!(x.data(), 0xB);
    assert!(x.has_execute());
    assert!(flags.user(true).has_user());
}

#[test]
fn entry_round_trip_x86_64() {
    let flags = PageFlags::<X8664Arch>::new().write(true);
    let entry = PageEntry::<X8664Arch>::encode(PhysicalAddress::new(0x0123_4000), flags);
    assert_eq!(entry.data(), 0x0123_4000 | flags.data());
    assert_eq!(entry.address().data(), 0x0123_4000);
    assert_eq!(entry.flags(), flags.data());
    assert!(entry.present());
    assert!(!PageEntry::<X8664Arch>::new(0).present());
}

#[test]
fn entry_round_trip_sv48() {
    let flags = PageFlags::<RiscV64Sv48Arch>::new().write(true);
    let entry = PageEntry::<RiscV64Sv48Arch>::encode(PhysicalAddress::new(0x0123_4000), flags);
    assert_eq!(entry.data(), (0x0123_4u64 << 10) | 0x7);
    assert_eq!(entry.address().data(), 0x0123_4000);
    assert_eq!(entry.flags(), 0x7);
    assert!(entry.present());
}

#[test]
fn custom_flags() {
    let flags = PageFlags::<EmulateArch>::from_data(0);
    let set = flags.custom_flag(0x40, true);
    assert_eq!(set.data(), 0x40);
    assert!(set.has_flag(0x40));
    assert_eq!(set.custom_flag(0x40, false).data(), 0);
}
