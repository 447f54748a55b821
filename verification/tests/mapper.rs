use kernel::boot_info::MemoryArea;
use kernel::mem::paging::page_table::P4_ADDRESS;
use kernel::mem::paging::{
    CoreFrameAlloc, EntryFlags, Frame, FrameAlloc, Machine, Mapper, Page, TlbFlush,
};

fn frame(number: u64) -> Frame {
    Frame::containing_address(number * 4096)
}

/// A machine with 64 frames whose level-4 table lies in frame 1, and an
/// allocator over the frames 8 to 63.
fn machine_and_allocator() -> (Mapper, CoreFrameAlloc) {
    let machine = Machine::boot(64, 1);
    let areas = vec![MemoryArea { base_addr: 8 * 4096, length: 56 * 4096 }];
    let allocator = CoreFrameAlloc::new(areas, [(frame(0), frame(0)), (frame(0), frame(0))]);
    (Mapper::new(machine), allocator)
}

fn leaf_flags(mapper: &Mapper, page: Page) -> Option<u64> {
    let machine = mapper.machine();
    let p3 = mapper.p4().next_table(machine, page.p4_index())?;
    let p2 = p3.next_table(machine, page.p3_index())?;
    let p1 = p2.next_table(machine, page.p2_index())?;
    Some(p1.entry(machine, page.p1_index()).flags().bits())
}

#[test]
fn boot_machine_shows_its_level4_table_in_the_recursive_window() {
    let machine = Machine::boot(16, 3);
    assert_eq!(machine.cr3(), 3);
    assert_eq!(machine.resolve_page(P4_ADDRESS / 4096), Some(3));
    assert_eq!(machine.read(P4_ADDRESS + 511 * 8), 3 * 4096 | 3);
    assert_eq!(machine.read(P4_ADDRESS), 0);
    assert_eq!(machine.resolve_page(0), None);
    let mapper = Mapper::new(machine);
    assert_eq!(mapper.translate(P4_ADDRESS), Some(3 * 4096));
    assert_eq!(mapper.translate(P4_ADDRESS + 0x123), Some(3 * 4096 + 0x123));
}

#[test]
fn map_to_then_translate_every_offset() {
    let (mut mapper, mut allocator) = machine_and_allocator();
    let page = Page::containing_address(0x4000_0000_0000);
    assert_eq!(mapper.translate(0x4000_0000_0000), None);
    mapper.map_to(page, frame(5), EntryFlags::writable(), &mut allocator);
    for k in [0u64, 1, 8, 0x7ff, 0xfff] {
        assert_eq!(mapper.translate(0x4000_0000_0000 + k), Some(5 * 4096 + k));
    }
    assert_eq!(mapper.translate_page(page).map(|f| f.number()), Some(5));
    assert_eq!(leaf_flags(&mapper, page), Some(EntryFlags::WRITABLE | EntryFlags::PRESENT));
    // The three tables came from the allocator, lowest frames first.
    assert_eq!(allocator.alloc_frame().map(|f| f.number()), Some(11));
    // Neighbouring pages are not mapped.
    assert_eq!(mapper.translate(0x4000_0000_1000), None);
    assert_eq!(mapper.translate(0x3fff_ffff_f000), None);
}

#[test]
fn map_to_reuses_existing_tables() {
    let (mut mapper, mut allocator) = machine_and_allocator();
    let first = Page::containing_address(0x20_0000);
    mapper.map_to(first, frame(4), EntryFlags::empty(), &mut allocator);
    mapper.map_to(first.add(1), frame(6), EntryFlags::empty(), &mut allocator);
    assert_eq!(mapper.translate(0x20_0000), Some(4 * 4096));
    assert_eq!(mapper.translate(0x20_1234), Some(6 * 4096 + 0x234));
    assert_eq!(allocator.alloc_frame().map(|f| f.number()), Some(11));
}

#[test]
fn map_takes_a_fresh_frame() {
    let (mut mapper, mut allocator) = machine_and_allocator();
    let page = Page::containing_address(0x1234_5000);
    mapper.map(page, EntryFlags::writable(), &mut allocator);
    assert_eq!(mapper.translate(0x1234_5678), Some(8 * 4096 + 0x678));
    assert_eq!(allocator.alloc_frame().map(|f| f.number()), Some(12));
}

#[test]
fn identity_map_maps_page_to_frame_of_same_number() {
    let (mut mapper, mut allocator) = machine_and_allocator();
    mapper.identity_map(frame(0xb8), EntryFlags::writable(), &mut allocator);
    assert_eq!(mapper.translate(0xb8000), Some(0xb8000));
    assert_eq!(mapper.translate(0xb8fff), Some(0xb8fff));
    assert_eq!(mapper.translate(0xb9000), None);
}

#[test]
fn unmap_restores_none_and_flushes_the_page() {
    let (mut mapper, mut allocator) = machine_and_allocator();
    let page = Page::containing_address(0x4000_0000_0000);
    mapper.map_to(page, frame(5), EntryFlags::writable(), &mut allocator);
    let other = Page::containing_address(0x4000_0000_1000);
    mapper.map_to(other, frame(6), EntryFlags::writable(), &mut allocator);
    mapper.unmap(page, &mut allocator);
    assert_eq!(mapper.translate(0x4000_0000_0000), None);
    assert_eq!(mapper.translate(0x4000_0000_0fff), None);
    assert_eq!(mapper.translate(0x4000_0000_1000), Some(6 * 4096));
    assert_eq!(mapper.machine().flushes(), &vec![TlbFlush::Address(0x4000_0000_0000)]);
    // The page can be mapped again, and no table is needed for it.
    mapper.map_to(page, frame(7), EntryFlags::empty(), &mut allocator);
    assert_eq!(mapper.translate(0x4000_0000_0000), Some(7 * 4096));
    assert_eq!(allocator.alloc_frame().map(|f| f.number()), Some(11));
}

#[test]
fn translate_follows_huge_pages() {
    let mut machine = Machine::boot(64, 1);
    // Level-4 entry 0 leads to the level-3 table in frame 2, whose entry 1
    // maps a 1 GiB page that starts at frame 0x40000 and whose entry 0 leads
    // to the level-2 table in frame 3, whose entry 2 maps a 2 MiB page that
    // starts at frame 0x200.
    machine.write_physical(1, 0, 2 * 4096 | 3);
    machine.write_physical(2, 1, 0x40000 * 4096 | 0x83);
    machine.write_physical(2, 0, 3 * 4096 | 3);
    machine.write_physical(3, 2, 0x200 * 4096 | 0x83);
    let mapper = Mapper::new(machine);
    assert_eq!(mapper.translate(0x4000_0000), Some(0x4000_0000));
    assert_eq!(mapper.translate(0x4000_0000 + 0x12_3456), Some(0x4000_0000 + 0x12_3456));
    assert_eq!(mapper.translate(2 * 0x20_0000 + 0x5678), Some(0x20_0000 + 0x5678));
    assert_eq!(mapper.translate(3 * 0x20_0000), None);
    assert_eq!(mapper.translate(0x8000_0000), None);
    // The processor sees the same.
    assert_eq!(mapper.machine().resolve_page(0x40000 + 0x123), Some(0x40000 + 0x123));
}

#[test]
fn words_can_be_written_and_read_through_a_mapping() {
    let (mut mapper, mut allocator) = machine_and_allocator();
    let page = Page::containing_address(0x7000);
    mapper.map_to(page, frame(40), EntryFlags::writable(), &mut allocator);
    let mut machine = mapper.into_machine();
    machine.write(0x7008, 0x1122_3344_5566_7788);
    assert_eq!(machine.read(0x7008), 0x1122_3344_5566_7788);
    assert_eq!(machine.read_physical(40, 1), 0x1122_3344_5566_7788);
    assert_eq!(machine.read(0x7000), 0);
}
