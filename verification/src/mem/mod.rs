//! Memory management subsystem

use vstd::prelude::*;

pub mod heap;
pub mod paging;
pub mod stack;

use crate::boot_info::{BootInformation, ElfSection};

use self::paging::demand::{lemma_tables_missing, page_range, ways};
use self::paging::entry::{lemma_flag_bits, EntryFlags};
use self::paging::frame_alloc::core_frame_alloc::unused_frames;
use self::paging::map_range::{lemma_mapped_range_means, lemma_shares_slot_low, map_pages};
use self::paging::page::p4_index_of;
use self::paging::remap::{
    kernel_frames, kernel_holds, lemma_maps_exactly_means, lemma_slots, remap_kernel, remappable,
    slot_of, REMAP_TMP_PAGE_NUMBER,
};
use self::paging::{
    number_of, ActivePageTable, CoreFrameAlloc, Frame, FrameAlloc, Machine, MachineState, Page,
    FRAME_LIMIT,
};
use self::stack::{Stack, StackAllocator};

verus! {

/// Address of the first byte of the kernel heap.
pub const HEAP_START: u64 = 0x4000_0000_0000;

/// Size of the kernel heap in bytes: 100 KiB.
pub const HEAP_SIZE: u64 = 100 * 1024;

/// Number of the first page of the kernel heap.
pub const HEAP_FIRST_PAGE: u64 = 0x4_0000_0000;

/// Number of the last page of the kernel heap.
pub const HEAP_LAST_PAGE: u64 = 0x4_0000_0018;

/// Number of pages of the range that stacks are taken from, the first one
/// not counted.
pub const STACK_PAGES: u64 = 100;

/// The lowest start address of the first `count` sections that occupy
/// memory, or the highest address of all if none of them does.
pub open spec fn kernel_start(sections: Seq<ElfSection>, count: int) -> u64
    decreases count,
{
    if count <= 0 {
        u64::MAX
    } else if sections[count - 1].spec_is_allocated() && sections[count - 1].addr < kernel_start(
        sections,
        count - 1,
    ) {
        sections[count - 1].addr
    } else {
        kernel_start(sections, count - 1)
    }
}

/// The highest end address of the first `count` sections that occupy
/// memory, or zero if none of them does.
pub open spec fn kernel_end(sections: Seq<ElfSection>, count: int) -> u64
    decreases count,
{
    if count <= 0 {
        0
    } else if sections[count - 1].spec_is_allocated() && (sections[count - 1].addr + sections[count
        - 1].size) as u64 > kernel_end(sections, count - 1) {
        (sections[count - 1].addr + sections[count - 1].size) as u64
    } else {
        kernel_end(sections, count - 1)
    }
}

/// The two ranges of frames that no allocator may hand out: the kernel
/// image, from the frame of its lowest start address to the frame of its
/// highest end address, and the boot information block, each as the numbers
/// of the first and the last frame.
pub open spec fn reserved_ranges(boot_info: &BootInformation) -> Seq<(nat, nat)> {
    let sections = boot_info.elf_sections@;
    seq![
        (
            number_of(kernel_start(sections, sections.len() as int)),
            number_of(kernel_end(sections, sections.len() as int)),
        ),
        (number_of(boot_info.start_address), number_of(boot_info.end_address)),
    ]
}

/// The reserved ranges of frames: the kernel image and the boot information
/// block.
pub fn reserved_frames(boot_info: &BootInformation) -> (r: [(Frame, Frame); 2])
    requires
        forall|j: int|
            0 <= j < boot_info.elf_sections@.len() && (
            #[trigger] boot_info.elf_sections@[j]).spec_is_allocated()
                ==> boot_info.elf_sections@[j].addr + boot_info.elf_sections@[j].size <= u64::MAX,
    ensures
        seq![(r[0].0@, r[0].1@), (r[1].0@, r[1].1@)] == reserved_ranges(boot_info),
{
    let mut start: u64 = u64::MAX;
    let mut end: u64 = 0;
    let mut i: usize = 0;
    while i < boot_info.elf_sections.len()
        invariant
            i <= boot_info.elf_sections@.len(),
            start == kernel_start(boot_info.elf_sections@, i as int),
            end == kernel_end(boot_info.elf_sections@, i as int),
            forall|j: int|
                0 <= j < boot_info.elf_sections@.len() && (
                #[trigger] boot_info.elf_sections@[j]).spec_is_allocated()
                    ==> boot_info.elf_sections@[j].addr + boot_info.elf_sections@[j].size
                    <= u64::MAX,
        decreases boot_info.elf_sections@.len() - i,
    {
        let section = boot_info.elf_sections[i];
        if section.is_allocated() {
            if section.start_address() < start {
                start = section.start_address();
            }
            if section.end_address() > end {
                end = section.end_address();
            }
        }
        i = i + 1;
    }
    [
        (Frame::containing_address(start), Frame::containing_address(end)),
        (
            Frame::containing_address(boot_info.start_address),
            Frame::containing_address(boot_info.end_address),
        ),
    ]
}

/// The parts of the memory subsystem: the allocator of frames, the active
/// hierarchy of page tables with the machine, and the allocator of stacks.
pub struct MemorySystem {
    pub frame_alloc: CoreFrameAlloc,
    pub active_table: ActivePageTable,
    pub stack_allocator: StackAllocator,
}

/// Number of pages of the lower half of the address space.
pub const LOWER_HALF_PAGES: u64 = 0x8_0000_0000;

/// Number of pages of the kernel heap.
pub const HEAP_PAGES: u64 = 25;

/// Whether the page with the given number is one of the kernel heap.
pub open spec fn heap_holds(page: nat) -> bool {
    HEAP_FIRST_PAGE <= page <= HEAP_LAST_PAGE
}

/// What the memory subsystem can be started from: a machine that
/// translates with the hierarchy that its recursive window shows, whose
/// level-4 table lies in what the kernel maps for itself; a page for
/// editing tables that is free, with at least two tables missing on the way
/// to it; a kernel that keeps clear of the heap; and enough free frames,
/// all in memory and none of them a table: four, one for each page of the
/// heap, and one for each table on the ways to the pages of the kernel and
/// of the heap.
pub open spec fn can_init(machine: MachineState, boot_info: &BootInformation) -> bool {
    &&& can_map_memory(
        machine,
        boot_info,
        unused_frames(boot_info.memory_areas@, reserved_ranges(boot_info), 0),
    )
    &&& CoreFrameAlloc::areas_in_bounds(boot_info.memory_areas@)
}

/// The tables that the hierarchy of the kernel needs: those on the ways to
/// the pages of the kernel and to the pages of the heap.
pub open spec fn memory_tables(boot_info: &BootInformation) -> Set<self::paging::hierarchy::TablePath> {
    ways(kernel_frames(boot_info).union(page_range(HEAP_FIRST_PAGE as nat, HEAP_LAST_PAGE as nat)))
}

/// What `can_init` asks of the machine, of the kernel and of the frames
/// that are free.
pub open spec fn can_map_memory(
    machine: MachineState,
    boot_info: &BootInformation,
    pool: Set<nat>,
) -> bool {
    &&& machine.hierarchy_ok()
    &&& machine.root() == Some(machine.cr3)
    &&& remappable(boot_info)
    &&& machine.pool_fresh(pool)
    &&& pool.len() >= memory_tables(boot_info).len() + 4 + HEAP_PAGES
    &&& machine.path_clear(machine.cr3, REMAP_TMP_PAGE_NUMBER as nat)
    &&& machine.missing_tables(machine.cr3, REMAP_TMP_PAGE_NUMBER as nat) >= 2
    &&& machine.cr3 < 0x8_0000_0000
    &&& kernel_holds(boot_info, machine.cr3)
    &&& forall|page: nat| heap_holds(page) ==> !#[trigger] kernel_holds(boot_info, page)
}

/// What the memory subsystem has set up: outside the recursive window the
/// active hierarchy maps the kernel, each page to the frame of the same
/// number, but for the page of the level-4 table that was active before,
/// and the pages of the heap, each to a frame of its own that was free and
/// is so no more, writable; no two pages of the heap share a frame, and no
/// frame of the heap is a table; the way to the level-1 entry of every
/// other page is free.
pub open spec fn memory_ready(
    state: MachineState,
    boot_info: &BootInformation,
    old_p4: nat,
    pool_before: Set<nat>,
    pool_after: Set<nat>,
) -> bool {
    let root = state.root().unwrap();
    &&& forall|page: nat|
        page < FRAME_LIMIT && p4_index_of(page) != 511 ==> (#[trigger] state.translate_from(
            root,
            page,
        )).is_some() == (heap_holds(slot_of(page)) || (kernel_holds(boot_info, slot_of(page))
            && slot_of(page) != old_p4))
    &&& forall|page: nat|
        page < FRAME_LIMIT && p4_index_of(page) != 511 && kernel_holds(boot_info, slot_of(page))
            && slot_of(page) != old_p4 ==> #[trigger] state.translate_from(root, page) == Some(
            slot_of(page),
        )
    &&& forall|page: nat|
        page < FRAME_LIMIT && p4_index_of(page) != 511 && !state.translate_from(
            root,
            page,
        ).is_some() ==> #[trigger] state.path_clear(root, page)
    &&& forall|page: nat|
        heap_holds(page) ==> pool_before.contains(
            (#[trigger] state.translate_from(root, page)).unwrap(),
        ) && !pool_after.contains(state.translate_from(root, page).unwrap()) && state.leaf(
            root,
            page,
        ) == Some(
            self::paging::entry::raw_entry(
                state.translate_from(root, page).unwrap(),
                EntryFlags::WRITABLE | EntryFlags::PRESENT,
            ),
        ) && !state.is_table(root, state.translate_from(root, page).unwrap())
    &&& forall|p: nat, q: nat|
        heap_holds(p) && heap_holds(q) && p != q ==> #[trigger] state.translate_from(root, p)
            != #[trigger] state.translate_from(root, q)
}

impl MemorySystem {
    /// Every part is in order, and the stacks lie in the lower half of the
    /// address space, where `init` has put them.
    pub open spec fn wf(&self) -> bool {
        &&& self.frame_alloc.wf()
        &&& self.active_table.wf()
        &&& self.stack_allocator.back() + 1 < LOWER_HALF_PAGES
    }

    /// Allocates new stack from the stack pool: see
    /// `StackAllocator::alloc_stack`.
    pub fn alloc_stack(&mut self, size_in_pages: usize) -> (r: Option<Stack>)
        requires
            old(self).wf(),
            old(self).stack_allocator.fits(size_in_pages as nat) ==> {
                &&& forall|q: nat|
                    old(self).stack_allocator.front() < q <= old(self).stack_allocator.front()
                        + size_in_pages ==> #[trigger] old(self).active_table@.path_clear(
                        old(self).active_table.root(),
                        q,
                    )
                &&& old(self).frame_alloc.free_frames().len() >= old(self).active_table@.missing_for(
                    old(self).active_table.root(),
                    page_range(
                        old(self).stack_allocator.front() + 1,
                        old(self).stack_allocator.front() + size_in_pages as nat,
                    ),
                ).len() + size_in_pages
                &&& old(self).active_table@.pool_fresh(old(self).frame_alloc.free_frames())
            },
        ensures
            final(self).wf(),
            final(self).stack_allocator.back() == old(self).stack_allocator.back(),
            r.is_some() <==> old(self).stack_allocator.fits(size_in_pages as nat),
            r.is_none()
                ==> final(self).stack_allocator.front() == old(self).stack_allocator.front()
                    && final(self).active_table@ == old(self).active_table@,
            r.is_some() ==> {
                &&& r.unwrap().spec_top() - r.unwrap().spec_bottom() == size_in_pages * 4096
                &&& r.unwrap().spec_bottom() == (old(self).stack_allocator.front() + 1) * 4096
                &&& final(self).stack_allocator.front() == old(self).stack_allocator.front()
                    + size_in_pages + 1
                &&& final(self).active_table@.mapped_range_from(
                    old(self).active_table@,
                    old(self).stack_allocator.front() + 1,
                    old(self).stack_allocator.front() + size_in_pages as nat + 1,
                    EntryFlags::WRITABLE,
                    old(self).frame_alloc.free_frames(),
                    final(self).frame_alloc.free_frames(),
                )
                &&& final(self).active_table@.grew_for(
                    old(self).active_table@,
                    old(self).active_table.root(),
                    page_range(
                        old(self).stack_allocator.front() + 1,
                        old(self).stack_allocator.front() + size_in_pages as nat,
                    ),
                )
                &&& final(self).active_table@.translate_from(
                    old(self).active_table.root(),
                    old(self).stack_allocator.front(),
                ) == old(self).active_table@.translate_from(
                    old(self).active_table.root(),
                    old(self).stack_allocator.front(),
                )
                &&& final(self).active_table@.pool_fresh(final(self).frame_alloc.free_frames())
                &&& final(self).frame_alloc.free_frames().len() + old(self).active_table@.missing_for(
                    old(self).active_table.root(),
                    page_range(
                        old(self).stack_allocator.front() + 1,
                        old(self).stack_allocator.front() + size_in_pages as nat,
                    ),
                ).len() + size_in_pages == old(self).frame_alloc.free_frames().len()
            },
    {
        proof {
            self.frame_alloc.lemma_free_frames_finite();
            if self.stack_allocator.fits(size_in_pages as nat) {
                assert forall|q: nat|
                    self.stack_allocator.front() < q <= self.stack_allocator.front()
                        + size_in_pages implies #[trigger] p4_index_of(q) != 511 by {
                    lemma_slots(q, q);
                }
                lemma_slots(self.stack_allocator.front(), self.stack_allocator.front());
            }
        }
        self.stack_allocator.alloc_stack(
            &mut self.active_table,
            &mut self.frame_alloc,
            size_in_pages,
        )
    }
}

/// Initializes memory subsystem: reserves the frames of the kernel image
/// and of the boot information block, builds the allocator of frames over
/// the areas of available memory, remaps the kernel, maps the pages of the
/// heap to fresh frames, writable, and sets up the allocator of stacks on
/// the pages that follow the heap.
pub fn init(machine: Machine, boot_info: &BootInformation) -> (r: MemorySystem)
    requires
        can_init(machine@, boot_info),
    ensures
        r.wf(),
        r.active_table@.frames() == machine@.frames(),
        r.frame_alloc.free_frames().subset_of(
            unused_frames(boot_info.memory_areas@, reserved_ranges(boot_info), 0),
        ),
        r.active_table@.pool_fresh(r.frame_alloc.free_frames()),
        r.frame_alloc.free_frames().len() + memory_tables(boot_info).len() + 4 + HEAP_PAGES
            == unused_frames(boot_info.memory_areas@, reserved_ranges(boot_info), 0).len(),
        r.active_table@.tables_are(
            r.active_table.root(),
            kernel_frames(boot_info).union(
                page_range(HEAP_FIRST_PAGE as nat, HEAP_LAST_PAGE as nat),
            ),
        ),
        r.stack_allocator.front() == HEAP_LAST_PAGE + 1,
        r.stack_allocator.back() == HEAP_LAST_PAGE + 1 + STACK_PAGES,
        memory_ready(
            r.active_table@,
            boot_info,
            machine@.cr3,
            unused_frames(boot_info.memory_areas@, reserved_ranges(boot_info), 0),
            r.frame_alloc.free_frames(),
        ),
{
    let reserved = reserved_frames(boot_info);
    let mut frame_alloc = CoreFrameAlloc::new(clone_areas(boot_info), reserved);
    proof {
        frame_alloc.lemma_free_frames_finite();
    }
    let (active_table, stack_allocator) = map_memory(machine, boot_info, &mut frame_alloc);
    MemorySystem { frame_alloc, active_table, stack_allocator }
}

/// Remaps the kernel, maps the heap and sets up the allocator of stacks,
/// with frames from the given allocator.
fn map_memory<A: FrameAlloc>(
    machine: Machine,
    boot_info: &BootInformation,
    frame_alloc: &mut A,
) -> (r: (ActivePageTable, StackAllocator))
    requires
        old(frame_alloc).wf(),
        old(frame_alloc).free_frames().finite(),
        old(frame_alloc).accepts(machine@.cr3),
        !A::reuses(),
        can_map_memory(machine@, boot_info, old(frame_alloc).free_frames()),
    ensures
        final(frame_alloc).wf(),
        r.0.wf(),
        r.0@.frames() == machine@.frames(),
        final(frame_alloc).free_frames().subset_of(old(frame_alloc).free_frames()),
        r.0@.pool_fresh(final(frame_alloc).free_frames()),
        final(frame_alloc).free_frames().len() + memory_tables(boot_info).len() + 4 + HEAP_PAGES
            == old(frame_alloc).free_frames().len(),
        r.0@.tables_are(
            r.0.root(),
            kernel_frames(boot_info).union(
                page_range(HEAP_FIRST_PAGE as nat, HEAP_LAST_PAGE as nat),
            ),
        ),
        r.1.front() == HEAP_LAST_PAGE + 1,
        r.1.back() == HEAP_LAST_PAGE + 1 + STACK_PAGES,
        memory_ready(
            r.0@,
            boot_info,
            machine@.cr3,
            old(frame_alloc).free_frames(),
            final(frame_alloc).free_frames(),
        ),
{
    let ghost pool0 = frame_alloc.free_frames();
    let ghost old_p4 = machine@.cr3;
    proof {
        self::paging::demand::lemma_ways_wider(
            kernel_frames(boot_info),
            kernel_frames(boot_info).union(
                page_range(HEAP_FIRST_PAGE as nat, HEAP_LAST_PAGE as nat),
            ),
        );
    }
    let mut active_table = remap_kernel(machine, frame_alloc, boot_info);
    let ghost s1 = active_table@;
    let ghost root = active_table.root();
    let ghost pool1 = frame_alloc.free_frames();
    let heap_start_page = Page::containing_address(HEAP_START);
    let heap_end_page = Page::containing_address(HEAP_START + HEAP_SIZE - 1);
    proof {
        lemma_flag_bits();
        assert forall|q: nat| heap_start_page@ <= q
            <= heap_end_page@ implies #[trigger] s1.path_clear(
            root,
            q,
        ) by {
            lemma_heap_free(s1, root, boot_info, old_p4, q);
        }
        lemma_tables_missing(
            s1,
            root,
            kernel_frames(boot_info),
            page_range(HEAP_FIRST_PAGE as nat, HEAP_LAST_PAGE as nat),
        );
    }
    map_pages(
        active_table.mapper_mut(),
        heap_start_page,
        heap_end_page,
        EntryFlags::writable(),
        frame_alloc,
    );
    proof {
        self::paging::demand::lemma_tables_grew(
            active_table@,
            s1,
            root,
            kernel_frames(boot_info),
            page_range(HEAP_FIRST_PAGE as nat, HEAP_LAST_PAGE as nat),
        );
    }
    let stack_start_page = heap_end_page.add(1);
    let stack_end_page = stack_start_page.add(STACK_PAGES);
    let stack_alloc = StackAllocator::new(Page::range_inclusive(stack_start_page, stack_end_page));
    proof {
        lemma_memory_ready(
            s1,
            active_table@,
            root,
            boot_info,
            old_p4,
            pool1,
            frame_alloc.free_frames(),
        );
    }
    (active_table, stack_alloc)
}

/// The way to the level-1 entry of a page of the heap is free in the
/// hierarchy that maps the kernel alone.
proof fn lemma_heap_free(
    s: MachineState,
    root: nat,
    boot_info: &BootInformation,
    old_p4: nat,
    page: nat,
)
    requires
        s.maps_exactly(
            root,
            boot_info,
            Set::new(|q: nat| kernel_holds(boot_info, q) && q != old_p4),
        ),
        heap_holds(page),
        !kernel_holds(boot_info, page),
    ensures
        s.path_clear(root, page),
{
    lemma_slots(page, page);
    lemma_maps_exactly_means(
        s,
        root,
        boot_info,
        Set::new(|q: nat| kernel_holds(boot_info, q) && q != old_p4),
        page,
    );
}

/// What the hierarchy maps once the heap has been mapped into the
/// hierarchy that mapped the kernel alone.
proof fn lemma_memory_ready(
    s1: MachineState,
    s2: MachineState,
    root: nat,
    boot_info: &BootInformation,
    old_p4: nat,
    pool1: Set<nat>,
    pool2: Set<nat>,
)
    requires
        s1.root() == Some(root),
        s1.maps_exactly(
            root,
            boot_info,
            Set::new(|q: nat| kernel_holds(boot_info, q) && q != old_p4),
        ),
        forall|page: nat| heap_holds(page) ==> !#[trigger] kernel_holds(boot_info, page),
        s2.mapped_range_from(
            s1,
            HEAP_FIRST_PAGE as nat,
            HEAP_LAST_PAGE as nat + 1,
            EntryFlags::WRITABLE,
            pool1,
            pool2,
        ),
    ensures
        s2.root() == Some(root),
        s2.cr3 == s1.cr3,
        s2.hierarchy_ok(),
        s2.frames() == s1.frames(),
        pool2.subset_of(pool1),
        forall|pool0: Set<nat>|
            pool1.subset_of(pool0) ==> #[trigger] memory_ready(s2, boot_info, old_p4, pool0, pool2),
{
    let kernel = Set::new(|q: nat| kernel_holds(boot_info, q) && q != old_p4);
    lemma_mapped_range_means(
        s2,
        s1,
        HEAP_FIRST_PAGE as nat,
        HEAP_LAST_PAGE as nat + 1,
        EntryFlags::WRITABLE,
        pool1,
        pool2,
    );
    assert forall|page: nat| page < FRAME_LIMIT && p4_index_of(page) != 511 implies ((
    #[trigger] s2.translate_from(root, page)).is_some() == (heap_holds(slot_of(page)) || (
    kernel_holds(boot_info, slot_of(page)) && slot_of(page) != old_p4))) && (kernel_holds(
        boot_info,
        slot_of(page),
    ) && slot_of(page) != old_p4 ==> s2.translate_from(root, page) == Some(slot_of(page))) && (
    !s2.translate_from(root, page).is_some() ==> s2.path_clear(root, page)) by {
        lemma_slots(page, page);
        lemma_slots(slot_of(page), slot_of(page));
        lemma_shares_slot_low(page, HEAP_FIRST_PAGE as nat, HEAP_LAST_PAGE as nat + 1);
        lemma_maps_exactly_means(s1, root, boot_info, kernel, page);
        if heap_holds(slot_of(page)) {
            self::paging::remap::lemma_same_slot(s2, root, page, slot_of(page));
            assert(s2.translate_from(root, slot_of(page)).is_some());
            assert(!kernel_holds(boot_info, slot_of(page)));
        } else {
            assert(s2.translate_from(root, page) == s1.translate_from(root, page));
        }
    }
}

/// A copy of the areas of available memory.
fn clone_areas(boot_info: &BootInformation) -> (r: Vec<crate::boot_info::MemoryArea>)
    ensures
        r@ == boot_info.memory_areas@,
{
    let mut areas: Vec<crate::boot_info::MemoryArea> = Vec::new();
    let mut i: usize = 0;
    while i < boot_info.memory_areas.len()
        invariant
            i <= boot_info.memory_areas@.len(),
            areas@ == boot_info.memory_areas@.subrange(0, i as int),
        decreases boot_info.memory_areas@.len() - i,
    {
        areas.push(boot_info.memory_areas[i]);
        proof {
            assert(areas@ =~= boot_info.memory_areas@.subrange(0, i as int + 1));
        }
        i = i + 1;
    }
    proof {
        assert(areas@ =~= boot_info.memory_areas@);
    }
    areas
}

} // verus!
