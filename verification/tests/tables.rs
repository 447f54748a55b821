use kernel::boot_info::{
    BootInformation, ElfSection, MemoryArea, ELF_SECTION_ALLOCATED, ELF_SECTION_WRITABLE,
};
use kernel::dev::kbd::{Kbd, KeyCode};
use kernel::dev::mgr::{install, DeviceManager};
use kernel::dev::Driver;
use kernel::drv::hid::atkbd::AtkbdDriver;
use kernel::kio::port::PortSpace;
use kernel::mem::paging::map_range::map_pages;
use kernel::mem::paging::page_table::{PageTable, L1, P4_ADDRESS};
use kernel::mem::paging::remap::map_kernel;
use kernel::mem::stack::StackAllocator;
use kernel::mem::paging::{
    ActivePageTable, CoreFrameAlloc, Entry, EntryFlags, Frame, FrameAlloc, InactivePageTable,
    Machine, Mapper, Page, TlbFlush, TmpPage,
};

fn frame(number: u64) -> Frame {
    Frame::containing_address(number * 4096)
}

fn allocator() -> CoreFrameAlloc {
    CoreFrameAlloc::new(
        vec![MemoryArea { base_addr: 8 * 4096, length: 56 * 4096 }],
        [(frame(0), frame(0)), (frame(0), frame(0))],
    )
}

#[test]
fn new_machine_is_blank() {
    let mut machine = Machine::new(4);
    assert_eq!(machine.frame_count(), 4);
    assert_eq!(machine.cr3(), 0);
    assert_eq!(machine.read_physical(3, 511), 0);
    assert_eq!(machine.resolve_page(0), None);
    machine.write_physical(2, 5, 77);
    assert_eq!(machine.read_physical(2, 5), 77);
    machine.set_cr3(2);
    assert_eq!(machine.cr3(), 2);
    machine.flush_tlb(0x1000);
    machine.flush_tlb_all();
    assert_eq!(machine.flushes(), &vec![TlbFlush::Address(0x1000), TlbFlush::All]);
    assert_eq!(Machine::new(0).frame_count(), 0);
}

#[test]
fn walk_from_any_level4_table() {
    let mut machine = Machine::boot(16, 1);
    // A second hierarchy in the frames 5 to 8 maps page 0x201 to frame 9.
    machine.write_physical(5, 0, 6 * 4096 | 1);
    machine.write_physical(6, 0, 7 * 4096 | 1);
    machine.write_physical(7, 1, 8 * 4096 | 1);
    machine.write_physical(8, 1, 9 * 4096 | 1);
    assert_eq!(machine.translate_from(5, 0x201), Some(9));
    assert_eq!(machine.translate_from(5, 0x200), None);
    assert_eq!(machine.translate_from(1, 0x201), None);
    // An entry that leads out of memory faults.
    machine.write_physical(7, 2, 100 * 4096 | 1);
    assert_eq!(machine.translate_from(5, 0x400), None);
    // A huge page whose first frame is not aligned faults.
    machine.write_physical(7, 3, 0x201 * 4096 | 0x81);
    assert_eq!(machine.translate_from(5, 0x600), None);
}

#[test]
fn tables_are_reached_through_the_recursive_window() {
    let mut machine = Machine::boot(64, 1);
    let mut frames = allocator();
    let p4 = PageTable::recursive_root();
    assert_eq!(p4.start_address(), P4_ADDRESS);
    assert_eq!(p4.next_table_address(&machine, 3), None);
    assert!(p4.next_table(&machine, 3).is_none());
    assert_eq!(p4.next_table_address(&machine, 511), Some(0xffff_ffff_ffff_f000));
    let p3 = p4.next_table_create(&mut machine, 3, &mut frames);
    assert_eq!(p3.start_address(), 0xffff_ffff_ffe0_3000);
    assert_eq!(machine.read_physical(1, 3), 8 * 4096 | 3);
    assert_eq!(machine.resolve_page(p3.start_address() / 4096), Some(8));
    let p2 = p3.next_table_create(&mut machine, 0o777, &mut frames);
    assert_eq!(p2.start_address(), 0xffff_ffff_c07f_f000);
    let p1 = p2.next_table_create(&mut machine, 0, &mut frames);
    assert_eq!(p1.start_address(), 0xffff_ff80_ffe0_0000);
    assert_eq!(machine.resolve_page(p1.start_address() / 4096), Some(10));
    // Nothing is taken where the table exists.
    let again = p4.next_table_create(&mut machine, 3, &mut frames);
    assert_eq!(again.start_address(), p3.start_address());
    assert_eq!(frames.alloc_frame().map(|f| f.number()), Some(11));
    let mut entry = Entry(0);
    entry.set(frame(30), EntryFlags::present());
    p1.set_entry(&mut machine, 7, entry);
    assert_eq!(p1.entry(&machine, 7), entry);
    assert_eq!(machine.read_physical(10, 7), 30 * 4096 | 1);
    p1.clear(&mut machine);
    assert_eq!(p1.entry(&machine, 7), Entry(0));
}

#[test]
fn new_table_is_cleared() {
    let mut machine = Machine::boot(64, 1);
    machine.write_physical(8, 17, 0xffff_ffff);
    let mut frames = allocator();
    PageTable::recursive_root().next_table_create(&mut machine, 0, &mut frames);
    assert_eq!(machine.read_physical(8, 17), 0);
}

#[test]
fn temporary_page_maps_a_frame_as_a_table() {
    let mut frames = allocator();
    let mut active = ActivePageTable::new(Machine::boot(64, 1));
    let mut tmp = TmpPage::new(Page::containing_address(0xcafe_b000), &mut frames);
    // The temporary page has taken three frames for its tables.
    assert_eq!(frames.alloc_frame().map(|f| f.number()), Some(11));
    assert_eq!(tmp.map(frame(40), &mut active), 0xcafe_b000);
    assert_eq!(active.mapper().translate(0xcafe_b008), Some(40 * 4096 + 8));
    tmp.unmap(&mut active);
    assert_eq!(active.mapper().translate(0xcafe_b000), None);
    let table: PageTable<L1> = tmp.map_table_frame(frame(41), &mut active);
    assert_eq!(table.start_address(), 0xcafe_b000);
    let mut machine = active.into_machine();
    table.set_entry(&mut machine, 2, Entry(0x1234));
    assert_eq!(machine.read_physical(41, 2), 0x1234);
    assert_eq!(PageTable::<L1>::at(0x5000).start_address(), 0x5000);
}

#[test]
fn with_in_two_steps() {
    let mut frames = allocator();
    let mut active = ActivePageTable::new(Machine::boot(64, 1));
    let mut tmp = TmpPage::new(Page::containing_address(0xcafe_b000), &mut frames);
    let table = InactivePageTable::new(frames.alloc_frame().unwrap(), &mut active, &mut tmp);
    let redirect = active.with_begin(&table, &mut tmp);
    assert_eq!(active.mapper().machine().read(P4_ADDRESS + 511 * 8), 11 * 4096 | 3);
    assert_eq!(active.mapper().machine().read_physical(1, 511), 11 * 4096 | 3);
    active.mapper_mut().identity_map(frame(0xb8), EntryFlags::writable(), &mut frames);
    assert_eq!(active.mapper().translate(0xb8000), Some(0xb8000));
    active.with_end(&mut tmp, redirect);
    assert_eq!(active.mapper().machine().read_physical(1, 511), 1 * 4096 | 3);
    assert_eq!(active.mapper().translate(0xb8000), None);
    assert_eq!(active.mapper().machine().translate_from(11, 0xb8), Some(0xb8));
    assert_eq!(
        active.mapper().machine().flushes(),
        &vec![
            TlbFlush::Address(0xcafe_b000),
            TlbFlush::All,
            TlbFlush::All,
            TlbFlush::Address(0xcafe_b000),
        ]
    );
}

#[test]
fn map_pages_gives_each_page_a_frame_of_its_own() {
    let mut frames = allocator();
    let mut mapper = Mapper::new(Machine::boot(64, 1));
    let start = Page::containing_address(0x1ff000);
    map_pages(&mut mapper, start, start.add(2), EntryFlags::writable(), &mut frames);
    let first = mapper.translate(0x1ff000).unwrap();
    let second = mapper.translate(0x200000).unwrap();
    let third = mapper.translate(0x201000).unwrap();
    assert!(first != second && second != third && first != third);
    assert_eq!(mapper.translate(0x1fe000), None);
    assert_eq!(mapper.translate(0x202000), None);
    // An empty range maps nothing.
    map_pages(&mut mapper, start.add(9), start.add(8), EntryFlags::writable(), &mut frames);
    assert_eq!(mapper.translate(0x207000), None);
    assert_eq!(mapper.translate(0x208000), None);
}

#[test]
fn map_kernel_maps_sections_screen_and_boot_information() {
    let boot_info = BootInformation {
        start_address: 0x9000,
        end_address: 0xa001,
        memory_areas: Vec::new(),
        elf_sections: vec![
            ElfSection { addr: 0x3000, size: 0x1001, flags: ELF_SECTION_ALLOCATED },
            ElfSection { addr: 0x6000, size: 0x10, flags: ELF_SECTION_WRITABLE },
            ElfSection { addr: 0x7000, size: 0, flags: ELF_SECTION_ALLOCATED },
        ],
    };
    let mut frames = allocator();
    let mut mapper = Mapper::new(Machine::boot(64, 1));
    map_kernel(&mut mapper, &mut frames, &boot_info);
    for page in 0..0x100u64 {
        let mapped = matches!(page, 3 | 4 | 9 | 0xa | 0xb8);
        let expected = if mapped { Some(page * 4096) } else { None };
        assert_eq!(mapper.translate(page * 4096), expected, "page {:#x}", page);
    }
}

#[test]
fn keyboard_driver_hands_keys_on() {
    let mut ports = PortSpace::new();
    let mut driver = AtkbdDriver::uninitialized();
    assert_eq!(driver.poll_key(), None);
    driver.init(Kbd::new());
    ports.receive(0x60, 0x1e);
    assert_eq!(ports.writes().len(), 0);
    driver.handle_irq(&mut ports);
    ports.receive(0x60, 0x130);
    driver.handle_irq(&mut ports);
    assert_eq!(driver.poll_key(), Some(KeyCode(0x1e)));
    assert_eq!(driver.poll_key(), Some(KeyCode(0x30)));
    assert_eq!(driver.poll_key(), None);
}

#[test]
fn manager_lists_classes_in_order_of_installation() {
    let mut manager = DeviceManager::new();
    install::<Kbd>(&mut manager);
    install::<Kbd>(&mut manager);
    assert_eq!(manager.classes().len(), 1);
    assert_eq!(manager.classes()[0].len(), 2);
    assert_eq!(manager.classes()[0].get(1).map(|d| d.name()), Some(b"kbd1".to_vec()));
}

#[test]
fn map_pages_takes_a_frame_for_each_page_and_each_missing_table() {
    let mut frames = allocator();
    let mut mapper = Mapper::new(Machine::boot(64, 1));
    let start = Page::containing_address(0x1ff000);
    // Three pages on either side of 2 MiB: a table of level 3, one of
    // level 2 and two of level 1 are missing.
    map_pages(&mut mapper, start, start.add(2), EntryFlags::writable(), &mut frames);
    assert_eq!(frames.alloc_frame().map(|f| f.number()), Some(8 + 3 + 4));
    // Two pages more below the second table of level 1 take two frames.
    map_pages(&mut mapper, start.add(3), start.add(4), EntryFlags::writable(), &mut frames);
    assert_eq!(frames.alloc_frame().map(|f| f.number()), Some(8 + 3 + 4 + 1 + 2));
}

#[test]
fn map_pages_gets_by_with_just_the_frames_it_needs() {
    let mut frames = CoreFrameAlloc::new(
        vec![MemoryArea { base_addr: 8 * 4096, length: 7 * 4096 }],
        [(frame(0), frame(0)), (frame(0), frame(0))],
    );
    let mut mapper = Mapper::new(Machine::boot(64, 1));
    let start = Page::containing_address(0x1ff000);
    map_pages(&mut mapper, start, start.add(2), EntryFlags::writable(), &mut frames);
    assert!(frames.alloc_frame().is_none());
    assert!(mapper.translate(0x201000).is_some());
}

#[test]
fn stacks_in_the_upper_half() {
    let mut frames = allocator();
    let mut active = ActivePageTable::new(Machine::boot(64, 1));
    let first = Page::containing_address(0xffff_9000_0000_0000);
    let mut stacks = StackAllocator::new(Page::range_inclusive(first, first.add(4)));
    let stack = stacks.alloc_stack(&mut active, &mut frames, 2).unwrap();
    assert_eq!(stack.bottom(), 0xffff_9000_0000_1000);
    assert_eq!(stack.top(), 0xffff_9000_0000_3000);
    let mapper = active.mapper();
    assert_eq!(mapper.translate(0xffff_9000_0000_0000), None);
    let low = mapper.translate(0xffff_9000_0000_1000).unwrap();
    let high = mapper.translate(0xffff_9000_0000_2fff).unwrap();
    assert_ne!(low / 4096, high / 4096);
    assert_eq!(mapper.translate(0xffff_9000_0000_3000), None);
    // The page with the same indices in the lower half is another page.
    assert_eq!(mapper.translate(0x0000_1000_0000_1000), None);
    // Two pages and three tables.
    assert_eq!(frames.alloc_frame().map(|f| f.number()), Some(8 + 5));
}

#[test]
fn map_takes_the_next_frame_of_the_allocator() {
    let mut frames = allocator();
    let mut mapper = Mapper::new(Machine::boot(64, 1));
    let page = Page::containing_address(0x40_0000);
    mapper.map(page, EntryFlags::writable(), &mut frames);
    // The frame of the page is taken before the frames of the tables.
    assert_eq!(mapper.translate(0x40_0123), Some(8 * 4096 + 0x123));
}

#[test]
fn tmp_page_keeps_three_frames_or_what_the_allocator_has() {
    let mut two = CoreFrameAlloc::new(
        vec![MemoryArea { base_addr: 8 * 4096, length: 2 * 4096 }],
        [(frame(0), frame(0)), (frame(0), frame(0))],
    );
    let _short = TmpPage::new(Page::containing_address(0x40_0000), &mut two);
    assert!(two.alloc_frame().is_none());
    let mut five = CoreFrameAlloc::new(
        vec![MemoryArea { base_addr: 8 * 4096, length: 5 * 4096 }],
        [(frame(0), frame(0)), (frame(0), frame(0))],
    );
    let mut full = TmpPage::new(Page::containing_address(0x40_0000), &mut five);
    assert_eq!(five.alloc_frame().map(|f| f.number()), Some(11));
    // The frames come back out in the order in which they were taken: the
    // tables of the page are made of the frames 8, 9 and 10.
    let mut active = ActivePageTable::new(Machine::boot(64, 1));
    full.map(frame(20), &mut active);
    let machine = active.mapper().machine();
    assert_eq!(machine.read_physical(1, 0) & 0x000f_ffff_ffff_f000, 8 * 4096);
    assert_eq!(machine.read_physical(8, 0) & 0x000f_ffff_ffff_f000, 9 * 4096);
    assert_eq!(machine.read_physical(9, 2) & 0x000f_ffff_ffff_f000, 10 * 4096);
}
