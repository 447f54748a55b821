use kernel::boot_info::{
    BootInformation, ElfSection, MemoryArea, ELF_SECTION_ALLOCATED, ELF_SECTION_EXECUTABLE,
    ELF_SECTION_WRITABLE,
};
use kernel::interrupts;
use kernel::kio::idt::Handler;
use kernel::mem;
use kernel::mem::paging::remap::{remap_kernel, REMAP_TMP_PAGE_NUMBER};
use kernel::mem::paging::{
    ActivePageTable, CoreFrameAlloc, EntryFlags, Frame, FrameAlloc, InactivePageTable, Machine,
    Mapper, Page, TlbFlush, TmpPage,
};

fn frame(number: u64) -> Frame {
    Frame::containing_address(number * 4096)
}

/// Memory area `[0, 1 MiB)`, kernel image `[0x10_0000, 0x11_0000)` with an
/// executable and a writable section, boot information block
/// `[0x20_0000, 0x20_1000)`.
fn boot_information() -> BootInformation {
    BootInformation {
        start_address: 0x20_0000,
        end_address: 0x20_1000,
        memory_areas: vec![MemoryArea { base_addr: 0, length: 0x10_0000 }],
        elf_sections: vec![
            ElfSection {
                addr: 0x10_0000,
                size: 0x8000,
                flags: ELF_SECTION_ALLOCATED | ELF_SECTION_EXECUTABLE,
            },
            ElfSection { addr: 0, size: 0x1234, flags: 0 },
            ElfSection {
                addr: 0x10_8000,
                size: 0x8000,
                flags: ELF_SECTION_ALLOCATED | ELF_SECTION_WRITABLE,
            },
        ],
    }
}

/// The machine as the boot code leaves it: the level-4 table in the last
/// frame of the kernel image, and the first 2 MiB mapped to themselves by a
/// huge page, with tables in the frames 0x300 and 0x301.
fn boot_machine() -> Machine {
    let mut machine = Machine::boot(0x400, 0x10f);
    machine.write_physical(0x10f, 0, 0x300 * 4096 | 3);
    machine.write_physical(0x300, 0, 0x301 * 4096 | 3);
    machine.write_physical(0x301, 0, 0x83);
    machine
}

fn leaf_flags(mapper: &Mapper, page: Page) -> Option<u64> {
    let machine = mapper.machine();
    let p3 = mapper.p4().next_table(machine, page.p4_index())?;
    let p2 = p3.next_table(machine, page.p3_index())?;
    let p1 = p2.next_table(machine, page.p2_index())?;
    Some(p1.entry(machine, page.p1_index()).flags().bits())
}

#[test]
fn reserved_frames_cover_kernel_and_boot_information() {
    let reserved = mem::reserved_frames(&boot_information());
    assert_eq!(reserved[0].0.number(), 0x100);
    assert_eq!(reserved[0].1.number(), 0x110);
    assert_eq!(reserved[1].0.number(), 0x200);
    assert_eq!(reserved[1].1.number(), 0x201);
}

#[test]
fn scenario_boot_minimal() {
    let boot_info = boot_information();
    let machine = boot_machine();
    assert_eq!(Mapper::new(boot_machine()).translate(0x0), Some(0x0));
    assert_eq!(Mapper::new(boot_machine()).translate(0x12_3456), Some(0x12_3456));
    let mut allocator = CoreFrameAlloc::new(
        vec![MemoryArea { base_addr: 0, length: 0x10_0000 }],
        mem::reserved_frames(&boot_info),
    );
    let active = remap_kernel(machine, &mut allocator, &boot_info);
    let mapper = active.mapper();
    // The new level-4 table is the fourth frame that the allocator gave.
    assert_eq!(mapper.machine().cr3(), 3);
    // VGA text buffer, writable.
    assert_eq!(mapper.translate(0xB8000), Some(0xB8000));
    assert_eq!(
        leaf_flags(mapper, Page::containing_address(0xB8000)),
        Some(EntryFlags::PRESENT | EntryFlags::WRITABLE)
    );
    // The executable section: present, and NO_EXECUTE cleared.
    assert_eq!(mapper.translate(0x10_0000), Some(0x10_0000));
    assert_eq!(mapper.translate(0x10_7fff), Some(0x10_7fff));
    assert_eq!(leaf_flags(mapper, Page::containing_address(0x10_0000)), Some(EntryFlags::PRESENT));
    // The writable section: NO_EXECUTE set.
    assert_eq!(mapper.translate(0x10_8000), Some(0x10_8000));
    assert_eq!(
        leaf_flags(mapper, Page::containing_address(0x10_8000)),
        Some(EntryFlags::PRESENT | EntryFlags::WRITABLE | EntryFlags::NO_EXECUTE)
    );
    // The boot information block: present only.
    assert_eq!(mapper.translate(0x20_0000), Some(0x20_0000));
    assert_eq!(leaf_flags(mapper, Page::containing_address(0x20_0000)), Some(EntryFlags::PRESENT));
    assert_eq!(mapper.translate(0x20_1000), None);
    // The old identity mapping is gone.
    assert_eq!(mapper.translate(0x0), None);
    assert_eq!(mapper.translate(0x11_0000), None);
    assert_eq!(mapper.translate(0xB7000), None);
    // The page of the old level-4 table is a guard page now.
    assert_eq!(mapper.translate(0x10_f000), None);
    assert_eq!(mapper.translate(0x10_e000), Some(0x10_e000));
    // The temporary page is unmapped again.
    assert_eq!(mapper.translate(REMAP_TMP_PAGE_NUMBER * 4096), None);
    // The processor translates as the mapper does.
    assert_eq!(mapper.machine().resolve_page(0xB8), Some(0xB8));
    assert_eq!(mapper.machine().resolve_page(0), None);
    assert_eq!(
        mapper.machine().flushes(),
        &vec![
            TlbFlush::Address(REMAP_TMP_PAGE_NUMBER * 4096),
            TlbFlush::All,
            TlbFlush::All,
            TlbFlush::Address(REMAP_TMP_PAGE_NUMBER * 4096),
            TlbFlush::Address(0x10_f000),
        ]
    );
}

#[test]
fn inactive_table_is_empty_but_for_its_recursive_entry() {
    let machine = Machine::boot(64, 1);
    let mut allocator = CoreFrameAlloc::new(
        vec![MemoryArea { base_addr: 8 * 4096, length: 56 * 4096 }],
        [(frame(0), frame(0)), (frame(0), frame(0))],
    );
    let mut active = ActivePageTable::new(machine);
    let mut tmp = TmpPage::new(Page::containing_address(0xdead_b000), &mut allocator);
    // Frame 20 holds rubbish.
    let mut machine = active.into_machine();
    machine.write_physical(20, 7, 0xffff_ffff_ffff_ffff);
    machine.write_physical(20, 511, 0x1234);
    let mut active = ActivePageTable::new(machine);
    let table = InactivePageTable::new(frame(20), &mut active, &mut tmp);
    assert_eq!(table.p4_frame.number(), 20);
    let machine = active.into_machine();
    for index in 0..511 {
        assert_eq!(machine.read_physical(20, index), 0);
    }
    assert_eq!(machine.read_physical(20, 511), 20 * 4096 | 3);
    assert_eq!(machine.resolve_page(0xdeadb), None);
    assert_eq!(machine.flushes(), &vec![TlbFlush::Address(0xdead_b000)]);
}

#[test]
fn with_edits_the_other_hierarchy_and_switch_activates_it() {
    let machine = Machine::boot(64, 1);
    let mut allocator = CoreFrameAlloc::new(
        vec![MemoryArea { base_addr: 8 * 4096, length: 56 * 4096 }],
        [(frame(0), frame(0)), (frame(0), frame(0))],
    );
    let mut active = ActivePageTable::new(machine);
    let mut tmp = TmpPage::new(Page::containing_address(0xdead_b000), &mut allocator);
    let page = Page::containing_address(0x5000);
    active.mapper_mut().map_to(page, frame(50), EntryFlags::empty(), &mut allocator);
    let new_frame = allocator.alloc_frame().unwrap();
    let mut table = InactivePageTable::new(new_frame, &mut active, &mut tmp);
    active.with(&mut table, &mut tmp, &mut allocator, |mapper: &mut Mapper, given: &mut CoreFrameAlloc| {
        // The recursive window shows the new hierarchy, in which nothing
        // is mapped, while the processor goes on with the old one.
        assert_eq!(mapper.translate(0x5000), None);
        assert_eq!(mapper.machine().resolve_page(5), Some(50));
        mapper.map_to(Page::containing_address(0x5000), frame(51), EntryFlags::empty(), given);
        assert_eq!(mapper.translate(0x5000), Some(51 * 4096));
        assert_eq!(mapper.machine().resolve_page(5), Some(50));
    });
    // Back in the active hierarchy.
    assert_eq!(active.mapper().translate(0x5000), Some(50 * 4096));
    assert_eq!(active.mapper().translate(0xdead_b000), None);
    let old = active.switch(table);
    assert_eq!(old.p4_frame.number(), 1);
    assert_eq!(active.mapper().machine().cr3(), 14);
    assert_eq!(active.mapper().translate(0x5000), Some(51 * 4096));
    assert_eq!(active.mapper().machine().resolve_page(5), Some(51));
}

#[test]
fn scenario_heap_alloc() {
    let boot_info = boot_information();
    let system = mem::init(boot_machine(), &boot_info);
    let mapper = system.active_table.mapper();
    let first = mapper.translate(mem::HEAP_START).unwrap();
    assert_eq!(
        leaf_flags(mapper, Page::containing_address(mem::HEAP_START)),
        Some(EntryFlags::PRESENT | EntryFlags::WRITABLE)
    );
    let last = mapper.translate(mem::HEAP_START + mem::HEAP_SIZE - 1).unwrap();
    assert_ne!(first / 4096, last / 4096);
    assert_eq!(mapper.translate(mem::HEAP_START + mem::HEAP_SIZE + 4095), None);
    assert_eq!(mapper.translate(mem::HEAP_START - 1), None);
    assert_eq!(mapper.translate(0xB8000), Some(0xB8000));
    assert_eq!(mem::HEAP_START / 4096, mem::HEAP_FIRST_PAGE);
    assert_eq!((mem::HEAP_START + mem::HEAP_SIZE - 1) / 4096, mem::HEAP_LAST_PAGE);
    let mut machine = system.active_table.into_machine();
    machine.write(mem::HEAP_START, 0xab);
    assert_eq!(machine.read(mem::HEAP_START), 0xab);
    assert_eq!(machine.read_physical(first / 4096, 0), 0xab);
}

#[test]
fn scenario_stack_guard() {
    let boot_info = boot_information();
    let mut system = mem::init(boot_machine(), &boot_info);
    let stack = system.alloc_stack(4).unwrap();
    assert_eq!(stack.top() - stack.bottom(), 4 * 4096);
    let guard = mem::HEAP_LAST_PAGE + 1;
    assert_eq!(stack.bottom(), (guard + 1) * 4096);
    {
        let mapper = system.active_table.mapper();
        assert_eq!(mapper.translate(stack.bottom() - 1), None);
        assert_eq!(mapper.translate(guard * 4096), None);
        for page in 0..4 {
            let address = stack.bottom() + page * 4096;
            assert!(mapper.translate(address).is_some());
            assert_eq!(
                leaf_flags(mapper, Page::containing_address(address)),
                Some(EntryFlags::PRESENT | EntryFlags::WRITABLE)
            );
        }
        assert_eq!(mapper.translate(stack.top()), None);
    }
    // The next stack leaves a guard page of its own.
    let second = system.alloc_stack(1).unwrap();
    assert_eq!(second.bottom(), stack.top() + 4096);
    assert_eq!(second.top() - second.bottom(), 4096);
    assert_eq!(system.active_table.mapper().translate(stack.top()), None);
}

#[test]
fn stack_allocator_refuses_empty_and_oversized_stacks() {
    let boot_info = boot_information();
    let mut system = mem::init(boot_machine(), &boot_info);
    assert!(system.alloc_stack(0).is_none());
    // The range holds 101 pages: a guard page and at most 100 pages of stack.
    assert!(system.alloc_stack(101).is_none());
    let stack = system.alloc_stack(1).unwrap();
    assert_eq!(stack.bottom(), (mem::HEAP_LAST_PAGE + 2) * 4096);
    assert!(system.alloc_stack(99).is_none());
    assert!(system.alloc_stack(98).is_some());
    assert!(system.alloc_stack(1).is_none());
}

#[test]
fn interrupts_init_sets_up_idt_and_handler_stacks() {
    let boot_info = boot_information();
    let mut system = mem::init(boot_machine(), &boot_info);
    let tables = interrupts::init(&mut system);
    let stacks = tables.tss.interrupt_stack_table;
    assert_eq!(stacks[0], (mem::HEAP_LAST_PAGE + 3) * 4096);
    assert_eq!(stacks[1], (mem::HEAP_LAST_PAGE + 5) * 4096);
    assert_eq!(stacks[2..], [0, 0, 0, 0, 0]);
    let mapper = system.active_table.mapper();
    let first = mapper.translate(stacks[0] - 8);
    let second = mapper.translate(stacks[1] - 8);
    assert!(first.is_some() && second.is_some());
    assert_ne!(first.unwrap() / 4096, second.unwrap() / 4096);
    // Below each stack lies its guard page.
    assert!(mapper.translate(stacks[0] - 4096 - 8).is_none());
    assert!(mapper.translate(stacks[1] - 4096 - 8).is_none());
    assert_eq!(tables.idt.entry(18).handler, Some(Handler::MachineCheck));
    assert_eq!(tables.idt.entry(18).stack_index, Some(1));
    assert_eq!(tables.idt.entry(8).handler, Some(Handler::DoubleFault));
    assert_eq!(tables.idt.entry(8).stack_index, Some(0));
}

#[test]
fn remap_kernel_takes_four_frames_and_one_for_each_table() {
    let boot_info = boot_information();
    let mut allocator = CoreFrameAlloc::new(
        vec![MemoryArea { base_addr: 0, length: 0x10_0000 }],
        mem::reserved_frames(&boot_info),
    );
    let _active = remap_kernel(boot_machine(), &mut allocator, &boot_info);
    // Three frames for the temporary page, one for the new level-4 table,
    // and the tables of the kernel: one of level 3, one of level 2, and two
    // of level 1, for the pages below 2 MiB and for the page at 2 MiB.
    assert_eq!(allocator.alloc_frame().map(|f| f.number()), Some(8));
}

#[test]
fn remap_kernel_gets_by_with_just_the_frames_it_needs() {
    let boot_info = boot_information();
    let mut allocator = CoreFrameAlloc::new(
        vec![MemoryArea { base_addr: 0, length: 8 * 4096 }],
        mem::reserved_frames(&boot_info),
    );
    let active = remap_kernel(boot_machine(), &mut allocator, &boot_info);
    assert!(allocator.alloc_frame().is_none());
    assert_eq!(active.mapper().translate(0x20_0000), Some(0x20_0000));
    assert_eq!(active.mapper().translate(0x10_e000), Some(0x10_e000));
}

#[test]
fn init_takes_the_frames_of_the_heap_and_of_its_tables() {
    let boot_info = boot_information();
    let mut system = mem::init(boot_machine(), &boot_info);
    // Eight frames for the kernel's hierarchy, three tables on the way to
    // the heap, and the 25 pages of the heap.
    assert_eq!(system.frame_alloc.alloc_frame().map(|f| f.number()), Some(36));
}

#[test]
fn init_gets_by_with_just_the_frames_it_needs() {
    let mut boot_info = boot_information();
    boot_info.memory_areas = vec![MemoryArea { base_addr: 0, length: 36 * 4096 }];
    let mut system = mem::init(boot_machine(), &boot_info);
    assert!(system.frame_alloc.alloc_frame().is_none());
    let mapper = system.active_table.mapper();
    assert!(mapper.translate(mem::HEAP_START).is_some());
    assert!(mapper.translate(mem::HEAP_START + mem::HEAP_SIZE - 1).is_some());
    assert!(mapper.translate(mem::HEAP_START + mem::HEAP_SIZE + 4095).is_none());
}

#[test]
fn handler_stacks_take_two_frames_where_their_tables_exist() {
    let boot_info = boot_information();
    let mut system = mem::init(boot_machine(), &boot_info);
    let _tables = interrupts::init(&mut system);
    // The stacks lie behind the heap, below the same level-1 table.
    assert_eq!(system.frame_alloc.alloc_frame().map(|f| f.number()), Some(38));
}

#[test]
fn stack_takes_a_frame_for_each_page_where_its_tables_exist() {
    let boot_info = boot_information();
    let mut system = mem::init(boot_machine(), &boot_info);
    // 98 pages behind the guard page, all below the level-1 table of the
    // heap.
    let stack = system.alloc_stack(98).unwrap();
    assert_eq!(stack.top() - stack.bottom(), 98 * 4096);
    assert_eq!(system.frame_alloc.alloc_frame().map(|f| f.number()), Some(36 + 98));
}
