use kernel::boot_info::{
    ElfSection, ELF_SECTION_ALLOCATED, ELF_SECTION_EXECUTABLE, ELF_SECTION_WRITABLE,
};
use kernel::mem::paging::{Entry, EntryFlags, Frame};

#[test]
fn entry_set_round_trip() {
    let mut entry = Entry(0);
    let flags = EntryFlags::from_bits_truncate(
        EntryFlags::PRESENT | EntryFlags::WRITABLE | EntryFlags::NO_EXECUTE,
    );
    entry.set(Frame::containing_address(0x000f_ffff_ffff_f000), flags);
    assert_eq!(entry.0, 0x800f_ffff_ffff_f003);
    assert_eq!(entry.pointed_frame().map(|f| f.number()), Some(0xff_ffff_ffff));
    assert_eq!(entry.flags().bits(), flags.bits() | EntryFlags::PRESENT);
    assert_eq!(entry.flags(), flags);
}

#[test]
fn entry_set_adds_present() {
    let mut entry = Entry(0);
    entry.set(Frame::containing_address(0x5000), EntryFlags::from_bits_truncate(EntryFlags::WRITABLE));
    assert_eq!(entry.0, 0x5003);
    assert_eq!(entry.pointed_frame().map(|f| f.number()), Some(5));
    assert_eq!(entry.flags().bits(), EntryFlags::WRITABLE | EntryFlags::PRESENT);
    assert!(!entry.is_unused());
    // Without any flag the entry is present all the same.
    entry.set(Frame::containing_address(0x7000), EntryFlags::empty());
    assert_eq!(entry.0, 0x7001);
    assert_eq!(entry.pointed_frame().map(|f| f.number()), Some(7));
}

#[test]
fn entry_set_unused_then_is_unused() {
    let mut entry = Entry(0xdead_beef);
    assert!(!entry.is_unused());
    entry.set_unused();
    assert!(entry.is_unused());
    assert_eq!(entry.0, 0);
    assert!(entry.pointed_frame().is_none());
    assert_eq!(entry.flags().bits(), 0);
}

#[test]
fn entry_flags_drop_bits_that_are_no_flags() {
    let entry = Entry(0x7ff0_0000_0000_0e01);
    assert_eq!(entry.flags().bits(), EntryFlags::PRESENT);
    assert_eq!(EntryFlags::from_bits_truncate(u64::MAX).bits(), EntryFlags::ALL);
    assert_eq!(EntryFlags::ALL, 0x8000_0000_0000_01ff);
}

#[test]
fn entry_flags_union_and_contains() {
    let present = EntryFlags::present();
    let writable = EntryFlags::writable();
    let both = present.union(writable);
    assert_eq!(both.bits(), 3);
    assert!(both.contains(present));
    assert!(both.contains(writable));
    assert!(!present.contains(both));
    assert!(both.has(EntryFlags::WRITABLE));
    assert!(!both.has(EntryFlags::HUGE_PAGE));
    assert!(EntryFlags::empty().contains(EntryFlags::empty()));
    assert_eq!(EntryFlags::no_execute().bits(), 1 << 63);
}

#[test]
fn entry_flag_bits_are_the_hardware_bits() {
    assert_eq!(EntryFlags::PRESENT, 1 << 0);
    assert_eq!(EntryFlags::WRITABLE, 1 << 1);
    assert_eq!(EntryFlags::USER_ACCESSIBLE, 1 << 2);
    assert_eq!(EntryFlags::WRITE_THROUGH, 1 << 3);
    assert_eq!(EntryFlags::NO_CACHE, 1 << 4);
    assert_eq!(EntryFlags::ACCESSED, 1 << 5);
    assert_eq!(EntryFlags::DIRTY, 1 << 6);
    assert_eq!(EntryFlags::HUGE_PAGE, 1 << 7);
    assert_eq!(EntryFlags::GLOBAL, 1 << 8);
    assert_eq!(EntryFlags::NO_EXECUTE, 1 << 63);
}

#[test]
fn flags_from_elf_section_flags() {
    let section = |flags: u64| ElfSection { addr: 0x10_0000, size: 0x1000, flags };
    let text = EntryFlags::from_elf_section_flags(&section(
        ELF_SECTION_ALLOCATED | ELF_SECTION_EXECUTABLE,
    ));
    assert_eq!(text.bits(), EntryFlags::PRESENT);
    let data =
        EntryFlags::from_elf_section_flags(&section(ELF_SECTION_ALLOCATED | ELF_SECTION_WRITABLE));
    assert_eq!(data.bits(), EntryFlags::PRESENT | EntryFlags::WRITABLE | EntryFlags::NO_EXECUTE);
    let rodata = EntryFlags::from_elf_section_flags(&section(ELF_SECTION_ALLOCATED));
    assert_eq!(rodata.bits(), EntryFlags::PRESENT | EntryFlags::NO_EXECUTE);
    let debug = EntryFlags::from_elf_section_flags(&section(0));
    assert_eq!(debug.bits(), EntryFlags::NO_EXECUTE);
}

#[test]
fn elf_section_accessors() {
    let section = ElfSection { addr: 0x10_0000, size: 0x2345, flags: ELF_SECTION_ALLOCATED };
    assert_eq!(section.start_address(), 0x10_0000);
    assert_eq!(section.end_address(), 0x10_2345);
    assert_eq!(section.flags(), ELF_SECTION_ALLOCATED);
    assert!(section.is_allocated());
    assert!(!ElfSection { addr: 0, size: 0, flags: ELF_SECTION_WRITABLE }.is_allocated());
}
