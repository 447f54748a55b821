//! Remapping the kernel: a fresh hierarchy of page tables that maps the
//! kernel image section by section, the VGA text buffer and the boot
//! information block, each page to the frame of the same number.

use vstd::prelude::*;

use crate::boot_info::{BootInformation, ElfSection};

use super::entry::{elf_entry_flags, lemma_flag_bits, raw_entry, EntryFlags, ENTRY_FRAME_LIMIT};
use super::active_page_table::ActivePageTable;
use super::demand::{
    lemma_grew_further, lemma_grew_means, lemma_grew_none, lemma_grew_one_more,
    lemma_lone_tables, lemma_missing_all, lemma_missing_of_page, lemma_missing_step,
    lemma_tables_grew, lemma_tables_same, page_range, ways,
};
use super::frame::Frame;
use super::frame_alloc::FrameAlloc;
use super::hierarchy::{
    lemma_edited_further,
    lemma_edited_means,
    lemma_grown_means,
    lemma_redirected_growth,
    lemma_same_hierarchy_means,
    same_slot,
};
use super::inactive_page_table::InactivePageTable;
use super::machine::{Machine, MachineState, TlbFlush};
use super::mapper::Mapper;
use super::page::{p4_index_of, Page};
use super::tmp_page::TmpPage;
use super::{number_of, start_of, FRAME_LIMIT};

verus! {

/// Number of the page at which tables are edited while the kernel is
/// remapped.
pub const REMAP_TMP_PAGE_NUMBER: u64 = 0xdeadbeef;

/// Physical address of the VGA text buffer.
pub const VGA_TEXT_BUFFER_ADDR: u64 = 0xb8000;

/// Number of the frame that holds the VGA text buffer.
pub const VGA_TEXT_BUFFER_FRAME: u64 = 0xb8;

/// Number of pages that the four table indices tell apart.
pub const SLOT_COUNT: u64 = 0x10_0000_0000;

/// Addresses below this one lie in the lower half of the address space.
pub const LOWER_HALF_END: u64 = 0x0000_8000_0000_0000;

/// The page of the lower 2^36 that has the same table indices.
pub open spec fn slot_of(page: nat) -> nat {
    page % (SLOT_COUNT as nat)
}

/// Whether the frame with the given number holds a byte of the section,
/// for a section that occupies memory.
pub open spec fn section_holds(section: ElfSection, frame: nat) -> bool {
    &&& section.spec_is_allocated()
    &&& number_of(section.addr) <= frame
    &&& frame <= number_of((section.addr + section.size - 1) as u64)
}

/// Whether one of the first `count` sections holds the frame.
pub open spec fn sections_hold(sections: Seq<ElfSection>, count: int, frame: nat) -> bool {
    exists|j: int|
        0 <= j < count && j < sections.len() && #[trigger] section_holds(sections[j], frame)
}

/// Whether the frame with the given number holds a byte of the boot
/// information block.
pub open spec fn info_holds(boot_info: &BootInformation, frame: nat) -> bool {
    number_of(boot_info.start_address) <= frame <= number_of(
        (boot_info.end_address - 1) as u64,
    )
}

/// Whether the frame is one that the kernel's own hierarchy maps.
pub open spec fn kernel_holds(boot_info: &BootInformation, frame: nat) -> bool {
    ||| sections_hold(boot_info.elf_sections@, boot_info.elf_sections@.len() as int, frame)
    ||| frame == VGA_TEXT_BUFFER_FRAME
    ||| info_holds(boot_info, frame)
}

/// The frames that the kernel's own hierarchy maps, each to the page of its
/// own number.
pub open spec fn kernel_frames(boot_info: &BootInformation) -> Set<nat> {
    Set::new(|frame: nat| kernel_holds(boot_info, frame))
}

/// Whether the level-1 entry is the one that the kernel's own hierarchy has
/// for the frame: it points to the frame, with the flags of the section
/// that holds the frame, with WRITABLE for the VGA text buffer, and with
/// PRESENT alone for the boot information block.
pub open spec fn entry_fits(boot_info: &BootInformation, frame: nat, entry: u64) -> bool {
    &&& forall|j: int|
        0 <= j < boot_info.elf_sections@.len() && #[trigger] section_holds(
            boot_info.elf_sections@[j],
            frame,
        ) ==> entry == raw_entry(
            frame,
            elf_entry_flags(boot_info.elf_sections@[j].flags) | EntryFlags::PRESENT,
        )
    &&& frame == VGA_TEXT_BUFFER_FRAME ==> entry == raw_entry(
        frame,
        EntryFlags::WRITABLE | EntryFlags::PRESENT,
    )
    &&& info_holds(boot_info, frame) ==> entry == raw_entry(
        frame,
        EntryFlags::PRESENT | EntryFlags::PRESENT,
    )
}

/// What the kernel can be remapped from: the sections that occupy memory
/// start at page boundaries and end in the lower half of the address space,
/// as the boot information block does, and no frame is held by two of the
/// sections, the VGA text buffer and the boot information block.
pub open spec fn remappable(boot_info: &BootInformation) -> bool {
    let sections = boot_info.elf_sections@;
    &&& forall|j: int|
        0 <= j < sections.len() && (#[trigger] sections[j]).spec_is_allocated() ==> sections[j].addr
            % 4096 == 0 && 1 <= sections[j].addr + sections[j].size <= LOWER_HALF_END
    &&& 1 <= boot_info.end_address <= LOWER_HALF_END
    &&& forall|j: int, k: int, frame: nat|
        0 <= j < k < sections.len() && #[trigger] section_holds(sections[j], frame)
            ==> !#[trigger] section_holds(sections[k], frame)
    &&& forall|j: int|
        0 <= j < sections.len() ==> !#[trigger] section_holds(
            sections[j],
            VGA_TEXT_BUFFER_FRAME as nat,
        )
    &&& !info_holds(boot_info, VGA_TEXT_BUFFER_FRAME as nat)
    &&& forall|j: int, frame: nat|
        0 <= j < sections.len() && #[trigger] section_holds(sections[j], frame) ==> !info_holds(
            boot_info,
            frame,
        )
}

impl MachineState {
    /// Outside the recursive window the hierarchy below `root` maps just
    /// the frames of `done`, each page to the frame of the same number and
    /// with the entry that the kernel's own hierarchy has for it.
    #[verifier::opaque]
    pub open spec fn translates_exactly(
        self,
        root: nat,
        boot_info: &BootInformation,
        done: Set<nat>,
    ) -> bool {
        forall|page: nat|
            page < FRAME_LIMIT && p4_index_of(page) != 511 ==> if done.contains(slot_of(page)) {
                &&& #[trigger] self.translate_from(root, page) == Some(slot_of(page))
                &&& self.leaf(root, page).is_some()
                &&& entry_fits(boot_info, slot_of(page), self.leaf(root, page).unwrap())
            } else {
                self.translate_from(root, page) == None::<nat>
            }
    }

    /// The hierarchy below `root` maps just the frames of `done`, as the
    /// kernel's own hierarchy does, and the way to the level-1 entry of
    /// every other page outside the recursive window is free.
    #[verifier::opaque]
    pub open spec fn maps_exactly(
        self,
        root: nat,
        boot_info: &BootInformation,
        done: Set<nat>,
    ) -> bool {
        &&& self.translates_exactly(root, boot_info, done)
        &&& forall|page: nat|
            page < FRAME_LIMIT && p4_index_of(page) != 511 && !done.contains(slot_of(page))
                ==> #[trigger] self.path_clear(root, page)
    }
}

/// Two page numbers have the same table indices just when they differ by a
/// multiple of 2^36; a page of the lower half of the address space lies
/// outside the recursive window and is the one of its slot.
pub proof fn lemma_slots(a: nat, b: nat)
    requires
        a < FRAME_LIMIT,
        b < FRAME_LIMIT,
    ensures
        same_slot(a, b) <==> slot_of(a) == slot_of(b),
        a < 0x8_0000_0000 ==> slot_of(a) == a && p4_index_of(a) != 511,
        slot_of(a) < SLOT_COUNT,
        same_slot(a, slot_of(a)),
{
    let x = a as u64;
    let y = b as u64;
    assert((((x / 0x800_0000) % 512 == (y / 0x800_0000) % 512 && (x / 0x4_0000) % 512 == (y
        / 0x4_0000) % 512 && (x / 512) % 512 == (y / 512) % 512 && x % 512 == y % 512) <==> x
        % 0x10_0000_0000 == y % 0x10_0000_0000) && (x < 0x8_0000_0000 ==> x % 0x10_0000_0000 == x
        && (x / 0x800_0000) % 512 != 511) && ((x % 0x10_0000_0000) / 0x800_0000) % 512 == (x
        / 0x800_0000) % 512 && ((x % 0x10_0000_0000) / 0x4_0000) % 512 == (x / 0x4_0000) % 512
            && ((x
        % 0x10_0000_0000) / 512) % 512 == (x / 512) % 512 && (x % 0x10_0000_0000) % 512 == x % 512)
        by (bit_vector)
        requires
            x < 0x0010_0000_0000_0000u64,
            y < 0x0010_0000_0000_0000u64,
    ;
}

/// A level-4 table with nothing mapped maps exactly no frame.
pub proof fn lemma_maps_nothing(s: MachineState, root: nat, boot_info: &BootInformation)
    requires
        s.lone_root(root),
    ensures
        s.maps_exactly(root, boot_info, Set::empty()),
{
    reveal(MachineState::maps_exactly);
    reveal(MachineState::translates_exactly);
    super::entry::lemma_raw_frame_bounded(0);
    assert forall|page: nat|
        page < FRAME_LIMIT && p4_index_of(page) != 511 implies #[trigger] s.path_clear(
        root,
        page,
    ) by {
        assert(s.word(root, p4_index_of(page)) == 0);
    }
}

/// Pages with the same table indices are translated alike.
pub proof fn lemma_same_slot(s: MachineState, root: nat, a: nat, b: nat)
    requires
        same_slot(a, b),
    ensures
        s.translate_from(root, a) == s.translate_from(root, b),
        s.leaf(root, a) == s.leaf(root, b),
        s.path_clear(root, a) == s.path_clear(root, b),
{
}

/// After one more frame has been mapped to the page of its own number, with
/// the entry that fits it, the hierarchy maps exactly the frames that it
/// mapped and this one.
pub proof fn lemma_mapped_one_more(
    s: MachineState,
    s2: MachineState,
    boot_info: &BootInformation,
    done: Set<nat>,
    frame: nat,
    pool_before: Set<nat>,
    pool_after: Set<nat>,
)
    requires
        s.hierarchy_ok(),
        s.maps_exactly(s.root().unwrap(), boot_info, done),
        s2.grown_from(s, frame, pool_before, pool_after),
        frame < 0x8_0000_0000,
        s2.translate_from(s.root().unwrap(), frame) == Some(frame),
        s2.leaf(s.root().unwrap(), frame).is_some(),
        entry_fits(boot_info, frame, s2.leaf(s.root().unwrap(), frame).unwrap()),
    ensures
        s2.maps_exactly(s.root().unwrap(), boot_info, done.insert(frame)),
{
    reveal(MachineState::maps_exactly);
    reveal(MachineState::translates_exactly);
    let root = s.root().unwrap();
    lemma_grown_means(s2, s, frame, pool_before, pool_after);
    assert forall|page: nat| page < FRAME_LIMIT && p4_index_of(page) != 511 implies (if done.insert(
        frame,
    ).contains(slot_of(page)) {
        &&& #[trigger] s2.translate_from(root, page) == Some(slot_of(page))
        &&& s2.leaf(root, page).is_some()
        &&& entry_fits(boot_info, slot_of(page), s2.leaf(root, page).unwrap())
    } else {
        s2.translate_from(root, page) == None::<nat>
    }) by {
        lemma_slots(page, frame);
        if same_slot(page, frame) {
            lemma_same_slot(s2, root, page, frame);
        } else {
            assert(s2.translate_from(root, page) == s.translate_from(root, page));
            if done.contains(slot_of(page)) {
                assert(s.leaf(root, page).is_some());
                assert(s2.leaf(root, page) == s.leaf(root, page));
            }
        }
    }
    assert forall|page: nat|
        page < FRAME_LIMIT && p4_index_of(page) != 511 && !done.insert(frame).contains(
            slot_of(page),
        ) implies #[trigger] s2.path_clear(root, page) by {
        lemma_slots(page, frame);
        assert(s.path_clear(root, page));
    }
}

/// What a hierarchy that maps exactly some frames says of one page.
pub proof fn lemma_maps_exactly_means(
    s: MachineState,
    root: nat,
    boot_info: &BootInformation,
    done: Set<nat>,
    page: nat,
)
    requires
        s.maps_exactly(root, boot_info, done),
        page < FRAME_LIMIT,
        p4_index_of(page) != 511,
    ensures
        s.translates_exactly(root, boot_info, done),
        done.contains(slot_of(page)) ==> s.translate_from(root, page) == Some(slot_of(page))
            && s.leaf(root, page).is_some() && entry_fits(
            boot_info,
            slot_of(page),
            s.leaf(root, page).unwrap(),
        ),
        !done.contains(slot_of(page)) ==> s.translate_from(root, page) == None::<nat>
            && s.path_clear(root, page),
{
    reveal(MachineState::maps_exactly);
    reveal(MachineState::translates_exactly);
}

/// Number of frames from `first` to `last`, both included.
pub open spec fn range_pages(first: nat, last: nat) -> nat {
    if first <= last {
        (last - first + 1) as nat
    } else {
        0
    }
}

/// None of the frames from `first` to `last` is mapped so far, and the
/// entry with the given flags and PRESENT fits each of them.
pub open spec fn range_fits(
    boot_info: &BootInformation,
    done: Set<nat>,
    first: nat,
    last: nat,
    flags: u64,
) -> bool {
    forall|q: nat|
        first <= q <= last ==> !#[trigger] done.contains(q) && entry_fits(
            boot_info,
            q,
            raw_entry(q, flags | EntryFlags::PRESENT),
        )
}

/// Maps each frame from `start_frame` to `end_frame` to the page of its own
/// number.
fn identity_map_range<A: FrameAlloc>(
    mapper: &mut Mapper,
    start_frame: Frame,
    end_frame: Frame,
    flags: EntryFlags,
    allocator: &mut A,
    Ghost(boot_info): Ghost<&BootInformation>,
    Ghost(done): Ghost<Set<nat>>,
    Ghost(all): Ghost<Set<nat>>,
)
    requires
        old(mapper).wf(),
        old(allocator).wf(),
        end_frame@ < 0x8_0000_0000,
        old(mapper)@.maps_exactly(old(mapper).root(), boot_info, done),
        range_fits(boot_info, done, start_frame@, end_frame@, flags@),
        page_range(start_frame@, end_frame@).subset_of(all),
        old(allocator).free_frames().finite(),
        old(allocator).free_frames().len() >= old(mapper)@.missing_for(
            old(mapper).root(),
            all,
        ).len(),
        old(mapper)@.pool_fresh(old(allocator).free_frames()),
    ensures
        final(mapper).wf(),
        final(allocator).wf(),
        forall|f: nat| old(allocator).accepts(f) ==> #[trigger] final(allocator).accepts(f),
        final(mapper)@.edited_from(
            old(mapper)@,
            old(allocator).free_frames(),
            final(allocator).free_frames(),
        ),
        final(mapper)@.flushes == old(mapper)@.flushes,
        final(mapper)@.maps_exactly(
            old(mapper).root(),
            boot_info,
            Set::new(|q: nat| done.contains(q) || start_frame@ <= q <= end_frame@),
        ),
        final(allocator).free_frames().finite(),
        final(mapper)@.grew_for(
            old(mapper)@,
            old(mapper).root(),
            page_range(start_frame@, end_frame@),
        ),
        final(allocator).free_frames().len() + old(mapper)@.missing_for(
            old(mapper).root(),
            all,
        ).len() == old(allocator).free_frames().len() + final(mapper)@.missing_for(
            old(mapper).root(),
            all,
        ).len(),
        final(mapper)@.pool_fresh(final(allocator).free_frames()),
{
    let ghost s0 = mapper@;
    let ghost root = mapper.root();
    let ghost pool0 = allocator.free_frames();
    let ghost first = start_frame@;
    let ghost last = end_frame@;
    let mut frames = Frame::range_inclusive(start_frame, end_frame);
    let mut next = frames.next();
    let ghost mut mapped: Set<nat> = done;
    let ghost mut grown: Set<nat> = Set::empty();
    proof {
        assert(mapped =~= Set::new(|q: nat| done.contains(q) || (first <= q && q < first)));
        assert(grown =~= Set::new(|q: nat| first <= q && q < first));
        lemma_grown_same_edit(s0, pool0);
        lemma_grew_none(s0, s0, root);
    }
    while next.is_some()
        invariant
            mapper.wf(),
            allocator.wf(),
            forall|f: nat| old(allocator).accepts(f) ==> #[trigger] allocator.accepts(f),
            mapper.root() == root,
            last < 0x8_0000_0000,
            frames.back() == last,
            next.is_some()
                ==> first <= next.unwrap()@ <= last && frames.front() == next.unwrap()@ + 1,
            next.is_none() ==> frames.front() > last,
            first <= frames.front(),
            mapped =~= Set::new(
                |q: nat|
                    done.contains(q) || (first <= q && q < (if next.is_some() {
                        next.unwrap()@
                    } else {
                        last + 1
                    })),
            ),
            mapper@.maps_exactly(root, boot_info, mapped),
            range_fits(boot_info, done, first, last, flags@),
            mapper@.edited_from(s0, pool0, allocator.free_frames()),
            mapper@.flushes == s0.flushes,
            allocator.free_frames().finite(),
            page_range(first, last).subset_of(all),
            grown =~= Set::new(
                |q: nat|
                    first <= q && q < (if next.is_some() {
                        next.unwrap()@
                    } else if first <= last {
                        last + 1
                    } else {
                        first
                    }),
            ),
            mapper@.grew_for(s0, root, grown),
            pool0.len() >= s0.missing_for(root, all).len(),
            allocator.free_frames().len() + s0.missing_for(root, all).len() == pool0.len()
                + mapper@.missing_for(root, all).len(),
            mapper@.pool_fresh(allocator.free_frames()),
        decreases
            (if next.is_some() {
                last - next.unwrap()@ + 1
            } else {
                0
            }),
    {
        let frame = next.unwrap();
        let ghost number = frame@;
        let ghost before = mapper@;
        let ghost pool = allocator.free_frames();
        proof {
            lemma_slots(number, number);
            assert(first <= number <= last);
            assert(!done.contains(number));
            assert(entry_fits(boot_info, number, raw_entry(number, flags@ | EntryFlags::PRESENT)));
            assert(!mapped.contains(number));
            lemma_maps_exactly_means(before, root, boot_info, mapped, number);
            assert(page_range(first, last).contains(number));
            lemma_missing_of_page(before, root, number, all);
        }
        mapper.identity_map(frame, flags, allocator);
        proof {
            lemma_grown_means(mapper@, before, number, pool, allocator.free_frames());
            lemma_missing_step(before, mapper@, root, number, all);
            lemma_grew_one_more(s0, before, mapper@, root, grown, number);
            grown = grown.insert(number);
            lemma_edited_further(s0, before, mapper@, pool0, pool, allocator.free_frames());
            assert(entry_fits(boot_info, number, raw_entry(number, flags@ | EntryFlags::PRESENT)));
            lemma_mapped_one_more(
                before,
                mapper@,
                boot_info,
                mapped,
                number,
                pool,
                allocator.free_frames(),
            );
            mapped = mapped.insert(number);
        }
        next = frames.next();
    }
    proof {
        assert(mapped =~= Set::new(|q: nat| done.contains(q) || first <= q <= last));
        assert(grown =~= page_range(first, last));
    }
}

/// Maps into the hierarchy that the mapper edits what the kernel needs to
/// run on it: every frame of the sections that occupy memory, with the
/// flags of the section, the frame of the VGA text buffer, writable, and
/// the frames of the boot information block, each to the page of its own
/// number.
///
/// Nothing must be mapped in the hierarchy so far, and the allocator must
/// hold a frame, fit to become a table, for each table that is missing on
/// the ways to the pages to map.
pub fn map_kernel<A: FrameAlloc>(
    mapper: &mut Mapper,
    allocator: &mut A,
    boot_info: &BootInformation,
)
    requires
        old(mapper).wf(),
        old(allocator).wf(),
        remappable(boot_info),
        old(mapper)@.maps_exactly(old(mapper).root(), boot_info, Set::empty()),
        old(allocator).free_frames().finite(),
        old(allocator).free_frames().len() >= old(mapper)@.missing_for(
            old(mapper).root(),
            kernel_frames(boot_info),
        ).len(),
        old(mapper)@.pool_fresh(old(allocator).free_frames()),
    ensures
        final(mapper).wf(),
        final(allocator).wf(),
        forall|f: nat| old(allocator).accepts(f) ==> #[trigger] final(allocator).accepts(f),
        final(mapper)@.edited_from(
            old(mapper)@,
            old(allocator).free_frames(),
            final(allocator).free_frames(),
        ),
        final(mapper)@.flushes == old(mapper)@.flushes,
        final(mapper)@.maps_exactly(
            old(mapper).root(),
            boot_info,
            Set::new(|q: nat| kernel_holds(boot_info, q)),
        ),
        final(mapper)@.pool_fresh(final(allocator).free_frames()),
        final(allocator).free_frames().finite(),
        final(mapper)@.grew_for(old(mapper)@, old(mapper).root(), kernel_frames(boot_info)),
        final(allocator).free_frames().len() + old(mapper)@.missing_for(
            old(mapper).root(),
            kernel_frames(boot_info),
        ).len() == old(allocator).free_frames().len(),
{
    let ghost s0 = mapper@;
    let ghost root = mapper.root();
    let ghost pool0 = allocator.free_frames();
    let ghost sections = boot_info.elf_sections@;
    let ghost kernel = kernel_frames(boot_info);
    let mut i: usize = 0;
    proof {
        lemma_grown_same_edit(s0, pool0);
        assert(Set::new(|q: nat| sections_hold(sections, 0, q)) =~= Set::<nat>::empty());
        lemma_flag_bits();
        lemma_grew_none(s0, s0, root);
    }
    while i < boot_info.elf_sections.len()
        invariant
            i <= sections.len(),
            sections == boot_info.elf_sections@,
            remappable(boot_info),
            mapper.wf(),
            allocator.wf(),
            forall|f: nat| old(allocator).accepts(f) ==> #[trigger] allocator.accepts(f),
            mapper.root() == root,
            mapper@.maps_exactly(
                root,
                boot_info,
                Set::new(|q: nat| sections_hold(sections, i as int, q)),
            ),
            mapper@.edited_from(s0, pool0, allocator.free_frames()),
            mapper@.flushes == s0.flushes,
            allocator.free_frames().finite(),
            kernel == kernel_frames(boot_info),
            mapper@.grew_for(s0, root, Set::new(|q: nat| sections_hold(sections, i as int, q))),
            pool0.len() >= s0.missing_for(root, kernel).len(),
            allocator.free_frames().len() + s0.missing_for(root, kernel).len() == pool0.len()
                + mapper@.missing_for(root, kernel).len(),
            mapper@.pool_fresh(allocator.free_frames()),
        decreases sections.len() - i,
    {
        let section = boot_info.elf_sections[i];
        let ghost done = Set::new(|q: nat| sections_hold(sections, i as int, q));
        let ghost after = Set::new(|q: nat| sections_hold(sections, i as int + 1, q));
        if section.is_allocated() {
            let flags = EntryFlags::from_elf_section_flags(&section);
            let start_frame = Frame::containing_address(section.start_address());
            let end_frame = Frame::containing_address(section.end_address() - 1);
            let ghost first = start_frame@;
            let ghost last = end_frame@;
            let ghost before = mapper@;
            let ghost pool = allocator.free_frames();
            proof {
                assert forall|q: nat| first <= q <= last implies !#[trigger] done.contains(q)
                    && entry_fits(boot_info, q, raw_entry(q, flags@ | EntryFlags::PRESENT)) by {
                    assert(section_holds(sections[i as int], q));
                    if done.contains(q) {
                        let j = choose|j: int|
                            0 <= j < i && j < sections.len() && #[trigger] section_holds(
                                sections[j],
                                q,
                            );
                        assert(!section_holds(sections[i as int], q));
                    }
                    assert forall|j: int|
                        0 <= j < sections.len() && #[trigger] section_holds(
                            sections[j],
                            q,
                        ) implies j == i by {
                        if j < i {
                            assert(!section_holds(sections[i as int], q));
                        } else if j > i {
                            assert(!section_holds(sections[j], q));
                        }
                    }
                }
                assert forall|q: nat| page_range(first, last).contains(q) implies kernel.contains(
                    q,
                ) by {
                    assert(section_holds(sections[i as int], q));
                }
            }
            identity_map_range(
                mapper,
                start_frame,
                end_frame,
                flags,
                allocator,
                Ghost(boot_info),
                Ghost(done),
                Ghost(kernel),
            );
            proof {
                lemma_edited_further(s0, before, mapper@, pool0, pool, allocator.free_frames());
                lemma_edited_means(mapper@, before, pool, allocator.free_frames());
                assert(after =~= Set::new(|q: nat| done.contains(q) || first <= q <= last)) by {
                    assert forall|q: nat| after.contains(q) <==> done.contains(q) || first <= q
                        <= last by {
                        lemma_one_more_section(sections, i as int, q);
                    }
                }
                lemma_grew_further(s0, before, mapper@, root, done, page_range(first, last));
                assert(after =~= done.union(page_range(first, last)));
            }
        } else {
            proof {
                assert(after =~= done) by {
                    assert forall|q: nat| after.contains(q) <==> done.contains(q) by {
                        lemma_one_more_section(sections, i as int, q);
                    }
                }
            }
        }
        i = i + 1;
    }
    let ghost all_sections = Set::new(|q: nat| sections_hold(sections, sections.len() as int, q));
    // Identity map VGA text buffer
    let vga_buffer_frame = Frame::containing_address(VGA_TEXT_BUFFER_ADDR);
    let ghost before = mapper@;
    let ghost pool = allocator.free_frames();
    proof {
        let vga = VGA_TEXT_BUFFER_FRAME as nat;
        lemma_slots(vga, vga);
        assert(!all_sections.contains(vga)) by {
            if all_sections.contains(vga) {
                let j = choose|j: int|
                    0 <= j < sections.len() && #[trigger] section_holds(sections[j], vga);
                assert(!section_holds(sections[j], vga));
            }
        }
        lemma_maps_exactly_means(before, root, boot_info, all_sections, vga);
        assert(kernel.contains(vga));
        lemma_missing_of_page(before, root, vga, kernel);
    }
    mapper.identity_map(vga_buffer_frame, EntryFlags::writable(), allocator);
    let ghost with_vga = all_sections.insert(VGA_TEXT_BUFFER_FRAME as nat);
    proof {
        let vga = VGA_TEXT_BUFFER_FRAME as nat;
        lemma_grown_means(mapper@, before, vga, pool, allocator.free_frames());
        lemma_missing_step(before, mapper@, root, vga, kernel);
        lemma_grew_one_more(s0, before, mapper@, root, all_sections, vga);
        lemma_edited_further(s0, before, mapper@, pool0, pool, allocator.free_frames());
        lemma_mapped_one_more(
            before,
            mapper@,
            boot_info,
            all_sections,
            vga,
            pool,
            allocator.free_frames(),
        );
    }
    // Identity map Multiboot info
    let multiboot_start = Frame::containing_address(boot_info.start_address);
    let multiboot_end = Frame::containing_address(boot_info.end_address - 1);
    let ghost first = multiboot_start@;
    let ghost last = multiboot_end@;
    let ghost before = mapper@;
    let ghost pool = allocator.free_frames();
    proof {
        assert forall|q: nat| first <= q <= last implies !#[trigger] with_vga.contains(q)
            && entry_fits(
            boot_info,
            q,
            raw_entry(q, EntryFlags::PRESENT | EntryFlags::PRESENT),
        ) by {
            assert(info_holds(boot_info, q));
            if all_sections.contains(q) {
                let j = choose|j: int|
                    0 <= j < sections.len() && #[trigger] section_holds(sections[j], q);
                assert(!info_holds(boot_info, q));
            }
        }
        assert forall|q: nat| page_range(first, last).contains(q) implies kernel.contains(q) by {
            assert(info_holds(boot_info, q));
        }
    }
    identity_map_range(
        mapper,
        multiboot_start,
        multiboot_end,
        EntryFlags::present(),
        allocator,
        Ghost(boot_info),
        Ghost(with_vga),
        Ghost(kernel),
    );
    proof {
        lemma_edited_further(s0, before, mapper@, pool0, pool, allocator.free_frames());
        lemma_edited_means(mapper@, before, pool, allocator.free_frames());
        assert(Set::new(|q: nat| with_vga.contains(q) || first <= q <= last) =~= Set::new(
            |q: nat| kernel_holds(boot_info, q),
        ));
        lemma_grew_further(s0, before, mapper@, root, with_vga, page_range(first, last));
        assert(kernel =~= with_vga.union(page_range(first, last)));
        lemma_grew_means(mapper@, s0, root, kernel);
    }
}

/// The first `count + 1` sections hold a frame just when the first `count`
/// sections or the section at index `count` hold it.
proof fn lemma_one_more_section(sections: Seq<ElfSection>, count: int, frame: nat)
    requires
        0 <= count < sections.len(),
    ensures
        sections_hold(sections, count + 1, frame) <==> sections_hold(sections, count, frame)
            || section_holds(sections[count], frame),
{
    if sections_hold(sections, count + 1, frame) {
        let j = choose|j: int|
            0 <= j < count + 1 && j < sections.len()
                && #[trigger] section_holds(sections[j], frame);
        if j < count {
            assert(sections_hold(sections, count, frame));
        }
    }
    if sections_hold(sections, count, frame) {
        let j = choose|j: int|
            0 <= j < count && j < sections.len() && #[trigger] section_holds(sections[j], frame);
        assert(section_holds(sections[j], frame));
    }
}

/// A hierarchy that is the same in two states maps exactly the same frames
/// in both.
pub proof fn lemma_maps_same(
    s: MachineState,
    s2: MachineState,
    root: nat,
    boot_info: &BootInformation,
    done: Set<nat>,
)
    requires
        s2.same_hierarchy(s, root),
    ensures
        s.translates_exactly(root, boot_info, done) ==> s2.translates_exactly(
            root,
            boot_info,
            done,
        ),
        s.maps_exactly(root, boot_info, done) ==> s2.maps_exactly(root, boot_info, done),
{
    reveal(MachineState::maps_exactly);
    reveal(MachineState::translates_exactly);
    lemma_same_hierarchy_means(s2, s, root);
    if s.translates_exactly(root, boot_info, done) {
        assert forall|page: nat| page < FRAME_LIMIT && p4_index_of(page) != 511 implies (
        if done.contains(slot_of(page)) {
            &&& #[trigger] s2.translate_from(root, page) == Some(slot_of(page))
            &&& s2.leaf(root, page).is_some()
            &&& entry_fits(boot_info, slot_of(page), s2.leaf(root, page).unwrap())
        } else {
            s2.translate_from(root, page) == None::<nat>
        }) by {
            assert(s2.translate_from(root, page) == s.translate_from(root, page));
            assert(s2.leaf(root, page) == s.leaf(root, page));
        }
    }
    if s.maps_exactly(root, boot_info, done) {
        assert forall|page: nat|
            page < FRAME_LIMIT && p4_index_of(page) != 511 && !done.contains(
                slot_of(page),
            ) implies #[trigger] s2.path_clear(root, page) by {
            assert(s2.path_clear(root, page) == s.path_clear(root, page));
        }
    }
}

/// After one page has been unmapped, the hierarchy maps exactly the frames
/// that it mapped but that page's.
pub proof fn lemma_unmapped_one(
    s: MachineState,
    s2: MachineState,
    root: nat,
    boot_info: &BootInformation,
    done: Set<nat>,
    frame: nat,
)
    requires
        s.maps_exactly(root, boot_info, done),
        frame < 0x8_0000_0000,
        s2.translate_from(root, frame) == None::<nat>,
        s2.path_clear(root, frame),
        forall|other: nat|
            p4_index_of(other) != 511 && !same_slot(other, frame) ==> #[trigger] s2.translate_from(
                root,
                other,
            ) == s.translate_from(root, other),
        forall|other: nat|
            p4_index_of(other) != 511 && !same_slot(other, frame)
                ==> #[trigger] s2.leaf(root, other)
                == s.leaf(root, other),
        forall|other: nat|
            p4_index_of(other) != 511 && !same_slot(other, frame) ==> #[trigger] s2.path_clear(
                root,
                other,
            ) == s.path_clear(root, other),
    ensures
        s2.maps_exactly(root, boot_info, done.remove(frame)),
{
    reveal(MachineState::maps_exactly);
    reveal(MachineState::translates_exactly);
    assert forall|page: nat| page < FRAME_LIMIT && p4_index_of(page) != 511 implies (
    if done.remove(frame).contains(slot_of(page)) {
        &&& #[trigger] s2.translate_from(root, page) == Some(slot_of(page))
        &&& s2.leaf(root, page).is_some()
        &&& entry_fits(boot_info, slot_of(page), s2.leaf(root, page).unwrap())
    } else {
        s2.translate_from(root, page) == None::<nat>
    }) by {
        lemma_slots(page, frame);
        if same_slot(page, frame) {
            lemma_same_slot(s2, root, page, frame);
        } else {
            assert(s2.translate_from(root, page) == s.translate_from(root, page));
            assert(s2.leaf(root, page) == s.leaf(root, page));
        }
    }
    assert forall|page: nat|
        page < FRAME_LIMIT && p4_index_of(page) != 511 && !done.remove(frame).contains(
            slot_of(page),
        ) implies #[trigger] s2.path_clear(root, page) by {
        lemma_slots(page, frame);
        if same_slot(page, frame) {
            lemma_same_slot(s2, root, page, frame);
        } else {
            assert(s2.path_clear(root, page) == s.path_clear(root, page));
        }
    }
}

/// What holds when the new level-4 table has been made and before anything
/// is mapped in it: the table is empty and no table of the active
/// hierarchy; the temporary page has its tables, room for one frame more,
/// and keeps neither the old level-4 table nor a frame of the allocator's;
/// and every frame that the allocator still holds is fit to become a table
/// of the new hierarchy.
pub open spec fn staged(
    state: MachineState,
    new_p4: nat,
    page: nat,
    reserve: Set<nat>,
    pool: Set<nat>,
) -> bool {
    &&& state.hierarchy_ok()
    &&& state.root() == Some(state.cr3)
    &&& state.lone_root(new_p4)
    &&& new_p4 < ENTRY_FRAME_LIMIT
    &&& new_p4 != state.cr3
    &&& !state.is_table(state.cr3, new_p4)
    &&& reserve.len() < 3
    &&& !reserve.contains(state.cr3)
    &&& state.missing_tables(state.cr3, page) == 0
    &&& state.path_clear(state.cr3, page)
    &&& p4_index_of(page) != 511
    &&& pool.finite()
    &&& forall|n: nat| #[trigger]
        pool.contains(n) ==> n < state.frames() && n < ENTRY_FRAME_LIMIT && n != state.cr3 && n
            != new_p4 && !state.is_table(state.cr3, n) && !reserve.contains(n)
}

/// Makes the temporary page and the new, empty level-4 table.
fn remap_stage<A: FrameAlloc>(machine: Machine, allocator: &mut A) -> (r: (
    ActivePageTable,
    InactivePageTable,
    TmpPage,
))
    requires
        machine@.hierarchy_ok(),
        machine@.root() == Some(machine@.cr3),
        old(allocator).wf(),
        old(allocator).free_frames().finite(),
        old(allocator).free_frames().len() >= 4,
        machine@.pool_fresh(old(allocator).free_frames()),
        machine@.path_clear(machine@.cr3, REMAP_TMP_PAGE_NUMBER as nat),
        machine@.missing_tables(machine@.cr3, REMAP_TMP_PAGE_NUMBER as nat) >= 2,
    ensures
        r.0.wf(),
        r.2.wf(),
        final(allocator).wf(),
        r.2.page() == REMAP_TMP_PAGE_NUMBER,
        r.0@.cr3 == machine@.cr3,
        r.0@.frames() == machine@.frames(),
        r.0@.flushes == machine@.flushes.push(
            TlbFlush::Address(start_of(REMAP_TMP_PAGE_NUMBER as nat) as u64),
        ),
        old(allocator).free_frames().contains(r.1.p4_frame@),
        staged(
            r.0@,
            r.1.p4_frame@,
            REMAP_TMP_PAGE_NUMBER as nat,
            r.2.reserve(),
            final(allocator).free_frames(),
        ),
        final(allocator).free_frames().subset_of(old(allocator).free_frames()),
        final(allocator).free_frames().len() + 4 == old(allocator).free_frames().len(),
        forall|f: nat| old(allocator).accepts(f) ==> #[trigger] final(allocator).accepts(f),
{
    let ghost m0 = machine@;
    let ghost old_p4 = m0.cr3;
    let ghost pool0 = allocator.free_frames();
    let ghost tmp = REMAP_TMP_PAGE_NUMBER as nat;
    proof {
        lemma_slots(tmp, tmp);
        assert(m0.is_table(old_p4, old_p4)) by {
            assert(super::hierarchy::TablePath::root().proper());
            assert(m0.table_at(old_p4, super::hierarchy::TablePath::root()) == Some(old_p4));
        }
    }
    let mut tmp_page = TmpPage::new(Page::from_number(REMAP_TMP_PAGE_NUMBER), allocator);
    let ghost reserve = tmp_page.reserve();
    let ghost pool1 = allocator.free_frames();
    let mut active_table = ActivePageTable::new(machine);
    proof {
        assert(pool1.len() == pool0.len() - 3 && pool1.finite()) by {
            vstd::set_lib::lemma_len_subset(reserve, pool0);
            vstd::set_lib::lemma_set_difference_len(pool0, reserve);
            assert(pool0.intersect(reserve) =~= reserve);
        }
    }
    let frame = allocator.alloc_frame().unwrap();
    let ghost new_p4 = frame@;
    let ghost pool2 = allocator.free_frames();
    proof {
        assert(pool0.contains(new_p4) && !reserve.contains(new_p4));
        assert(m0.pool_fresh(reserve));
        assert(pool2.subset_of(pool0) && pool2.len() == pool1.len() - 1 && pool2.finite());
        assert(!pool2.contains(new_p4));
        assert(pool2.disjoint(reserve));
    }
    let new_table = InactivePageTable::new(frame, &mut active_table, &mut tmp_page);
    let ghost s1 = active_table@;
    let ghost reserve1 = tmp_page.reserve();
    proof {
        assert(s1.cr3 == old_p4 && s1.frames() == m0.frames() && reserve1.subset_of(
            reserve.insert(new_p4),
        ) && !s1.is_table(old_p4, new_p4) && (forall|x: nat| #[trigger]
            s1.is_table(old_p4, x) ==> m0.is_table(old_p4, x) || reserve.contains(x))) by {
            lemma_grown_means(s1, m0, tmp, reserve.insert(new_p4), reserve1);
        }
        assert(!reserve1.contains(old_p4)) by {
            assert(!pool0.contains(old_p4));
        }
        assert forall|n: nat| #[trigger] pool2.contains(n) implies n < s1.frames() && n
            < ENTRY_FRAME_LIMIT && n != s1.cr3 && n != new_p4 && !s1.is_table(s1.cr3, n)
            && !reserve1.contains(n) by {
            assert(pool0.contains(n));
        }
    }
    (active_table, new_table, tmp_page)
}

/// Maps in the new hierarchy all that the kernel needs, through the
/// recursive window of the active hierarchy.
fn remap_fill<A: FrameAlloc>(
    active_table: &mut ActivePageTable,
    new_table: &mut InactivePageTable,
    tmp_page: &mut TmpPage,
    allocator: &mut A,
    boot_info: &BootInformation,
)
    requires
        old(active_table).wf(),
        old(tmp_page).wf(),
        old(allocator).wf(),
        remappable(boot_info),
        staged(
            old(active_table)@,
            old(new_table).p4_frame@,
            old(tmp_page).page(),
            old(tmp_page).reserve(),
            old(allocator).free_frames(),
        ),
        old(allocator).free_frames().len() >= ways(kernel_frames(boot_info)).len(),
    ensures
        final(active_table).wf(),
        final(allocator).wf(),
        final(new_table).p4_frame@ == old(new_table).p4_frame@,
        final(active_table)@.cr3 == old(active_table)@.cr3,
        final(active_table)@.frames() == old(active_table)@.frames(),
        final(active_table)@.flushes == old(active_table)@.flushes.push(TlbFlush::All).push(
            TlbFlush::All,
        ).push(TlbFlush::Address(start_of(old(tmp_page).page()) as u64)),
        final(active_table)@.tree(old(new_table).p4_frame@),
        final(active_table)@.maps_exactly(
            old(new_table).p4_frame@,
            boot_info,
            Set::new(|q: nat| kernel_holds(boot_info, q)),
        ),
        final(allocator).free_frames().subset_of(old(allocator).free_frames()),
        forall|f: nat| old(allocator).accepts(f) ==> #[trigger] final(allocator).accepts(f),
        final(allocator).free_frames().finite(),
        final(allocator).free_frames().len() + ways(kernel_frames(boot_info)).len() == old(allocator).free_frames().len(),
        final(active_table)@.tables_are(old(new_table).p4_frame@, kernel_frames(boot_info)),
        !final(active_table)@.is_table(old(new_table).p4_frame@, final(active_table)@.cr3),
        forall|n: nat| #[trigger]
            final(allocator).free_frames().contains(n) ==> !final(active_table)@.is_table(
                old(new_table).p4_frame@,
                n,
            ),
{
    let ghost s1 = active_table@;
    let ghost old_p4 = s1.cr3;
    let ghost new_p4 = new_table.p4_frame@;
    let ghost tmp = tmp_page.page();
    let ghost reserve1 = tmp_page.reserve();
    let ghost pool2 = allocator.free_frames();
    let ghost kernel = Set::new(|q: nat| kernel_holds(boot_info, q));
    let map_all = |mapper: &mut Mapper, given: &mut A|
        requires
            mapper.wf(),
            given.wf(),
            remappable(boot_info),
            mapper@.maps_exactly(mapper.root(), boot_info, Set::empty()),
            given.free_frames().finite(),
            given.free_frames().len() >= mapper@.missing_for(
                mapper.root(),
                kernel_frames(boot_info),
            ).len(),
            mapper@.pool_fresh(given.free_frames()),
        ensures
            final(mapper).wf(),
            final(given).wf(),
            forall|f: nat| old(given).accepts(f) ==> #[trigger] final(given).accepts(f),
            final(mapper)@.edited_from(
                old(mapper)@,
                old(given).free_frames(),
                final(given).free_frames(),
            ),
            final(mapper)@.flushes == old(mapper)@.flushes,
            final(mapper)@.maps_exactly(
                old(mapper).root(),
                boot_info,
                Set::new(|q: nat| kernel_holds(boot_info, q)),
            ),
            final(mapper)@.pool_fresh(final(given).free_frames()),
            final(given).free_frames().finite(),
            final(mapper)@.grew_for(old(mapper)@, old(mapper).root(), kernel_frames(boot_info)),
            final(given).free_frames().len() + old(mapper)@.missing_for(
                old(mapper).root(),
                kernel_frames(boot_info),
            ).len() == old(given).free_frames().len(),
        {
            map_kernel(mapper, given, boot_info);
        };
    let ghost given_before = *allocator;
    proof {
        assert(s1.maps_exactly(new_p4, boot_info, Set::empty())) by {
            lemma_maps_nothing(s1, new_p4, boot_info);
        }
        assert(s1.is_table(new_p4, new_p4));
        assert forall|mapper: &mut Mapper, given: &mut A|
            ActivePageTable::with_entry(
                s1,
                new_p4,
                reserve1,
                given_before,
                mapper@,
                *given,
            ) implies call_requires(map_all, (mapper, given)) by {
            lemma_maps_same(s1, mapper@, new_p4, boot_info, Set::empty());
            lemma_same_hierarchy_means(mapper@, s1, new_p4);
            lemma_lone_tables(s1, new_p4);
            lemma_missing_all(mapper@, new_p4, kernel_frames(boot_info));
            assert forall|n: nat| #[trigger] pool2.contains(n) implies n < mapper@.frames() && n
                < ENTRY_FRAME_LIMIT && n != mapper@.cr3 && !mapper@.is_table(new_p4, n) by {
                assert(mapper@.is_table(new_p4, n) == s1.is_table(new_p4, n));
            }
        }
        assert forall|mapper: &mut Mapper, given: &mut A|
            ActivePageTable::with_entry(s1, new_p4, reserve1, given_before, mapper@, *given)
                && call_ensures(map_all, (mapper, given), ()) implies final(mapper)@.redirected_since(mapper@) by {
            assert forall|x: nat| #[trigger] pool2.contains(x) implies !mapper@.is_table(
                mapper@.cr3,
                x,
            ) by {
                if mapper@.is_table(mapper@.cr3, x) {
                    assert(s1.is_table(old_p4, x) || reserve1.contains(x));
                }
            }
            lemma_redirected_growth(
                mapper@,
                mapper@,
                final(mapper)@,
                pool2,
                final(given).free_frames(),
            );
        }
    }
    active_table.with(new_table, tmp_page, allocator, map_all);
    proof {
        let s2 = active_table@;
        let (mapper, given) = choose|mapper: &mut Mapper, given: &mut A|
            ActivePageTable::with_entry(s1, new_p4, reserve1, given_before, mapper@, *given)
                && call_ensures(map_all, (mapper, given), ()) && *final(given) == *allocator
                && s2.same_hierarchy(final(mapper)@, new_p4)
                    && s2.flushes
                        == final(mapper)@.flushes.push(TlbFlush::All).push(TlbFlush::Address(start_of(tmp) as u64));
        assert(s2.maps_exactly(new_p4, boot_info, kernel)) by {
            lemma_maps_same(final(mapper)@, s2, new_p4, boot_info, kernel);
        }
        assert(s2.tables_are(new_p4, kernel) && mapper@.missing_for(new_p4, kernel) == ways(
            kernel,
        )) by {
            lemma_lone_tables(s1, new_p4);
            lemma_same_hierarchy_means(mapper@, s1, new_p4);
            lemma_missing_all(mapper@, new_p4, kernel);
            lemma_tables_same(s1, mapper@, new_p4, Set::empty(), Set::empty());
            lemma_tables_grew(final(mapper)@, mapper@, new_p4, Set::empty(), kernel);
            lemma_same_hierarchy_means(s2, final(mapper)@, new_p4);
            lemma_tables_same(
                final(mapper)@,
                s2,
                new_p4,
                Set::<nat>::empty().union(kernel),
                kernel,
            );
        }
        assert(allocator.free_frames().subset_of(pool2)) by {
            lemma_edited_means(final(mapper)@, mapper@, pool2, allocator.free_frames());
        }
        assert forall|n: nat| #[trigger] allocator.free_frames().contains(n) implies !s2.is_table(
            new_p4,
            n,
        ) by {
            lemma_same_hierarchy_means(s2, final(mapper)@, new_p4);
            lemma_edited_means(final(mapper)@, mapper@, pool2, allocator.free_frames());
            assert(!final(mapper)@.is_table(final(mapper)@.root().unwrap(), n));
        }
    }
}

/// Builds a fresh hierarchy of page tables for the kernel, makes it the
/// active one, and turns the page of the old level-4 table into a guard
/// page: maps in the new hierarchy the sections of the kernel image that
/// occupy memory, each with its own flags, the VGA text buffer and the boot
/// information block, each page to the frame of the same number, loads the
/// register with the new level-4 table and unmaps the page of the old one.
///
/// The machine must translate with the hierarchy that its recursive window
/// shows; the old level-4 table must lie in what the new hierarchy maps;
/// the page at which tables are edited must be free, with at least two of
/// the tables on the way to it missing; and the allocator must hold four
/// frames and one for each table on the ways to the pages to map, all of
/// them fit to become tables.
pub fn remap_kernel<A: FrameAlloc>(
    machine: Machine,
    allocator: &mut A,
    boot_info: &BootInformation,
) -> (r: ActivePageTable)
    requires
        machine@.hierarchy_ok(),
        machine@.root() == Some(machine@.cr3),
        old(allocator).wf(),
        remappable(boot_info),
        old(allocator).free_frames().finite(),
        old(allocator).free_frames().len() >= ways(kernel_frames(boot_info)).len() + 4,
        machine@.pool_fresh(old(allocator).free_frames()),
        machine@.path_clear(machine@.cr3, REMAP_TMP_PAGE_NUMBER as nat),
        machine@.missing_tables(machine@.cr3, REMAP_TMP_PAGE_NUMBER as nat) >= 2,
        machine@.cr3 < 0x8_0000_0000,
        kernel_holds(boot_info, machine@.cr3),
        old(allocator).accepts(machine@.cr3),
    ensures
        r.wf(),
        final(allocator).wf(),
        old(allocator).free_frames().contains(r@.cr3),
        r@.frames() == machine@.frames(),
        r@.maps_exactly(
            r@.cr3,
            boot_info,
            Set::new(|q: nat| kernel_holds(boot_info, q) && q != machine@.cr3),
        ),
        A::reuses() ==> final(allocator).free_frames().subset_of(
            old(allocator).free_frames().insert(machine@.cr3),
        ),
        !A::reuses() ==> final(allocator).free_frames().subset_of(old(allocator).free_frames()),
        !final(allocator).free_frames().contains(r@.cr3),
        final(allocator).free_frames().finite(),
        final(allocator).free_frames().len() + ways(kernel_frames(boot_info)).len() + 4 == old(allocator).free_frames().len() + (if A::reuses() {
            1nat
        } else {
            0nat
        }),
        r@.tables_are(r@.cr3, kernel_frames(boot_info)),
        r@.word(r@.cr3, 511) == raw_entry(r@.cr3, EntryFlags::PRESENT | EntryFlags::WRITABLE),
        r@.pool_fresh(final(allocator).free_frames()),
        r@.flushes == machine@.flushes.push(
            TlbFlush::Address(start_of(REMAP_TMP_PAGE_NUMBER as nat) as u64),
        ).push(TlbFlush::All).push(TlbFlush::All).push(
            TlbFlush::Address(start_of(REMAP_TMP_PAGE_NUMBER as nat) as u64),
        ).push(TlbFlush::Address(start_of(machine@.cr3) as u64)),
{
    let ghost old_p4 = machine@.cr3;
    let ghost kernel = Set::new(|q: nat| kernel_holds(boot_info, q));
    let (mut active_table, mut new_table, mut tmp_page) = remap_stage(machine, allocator);
    let ghost new_p4 = new_table.p4_frame@;
    let ghost pool_staged = allocator.free_frames();
    remap_fill(&mut active_table, &mut new_table, &mut tmp_page, allocator, boot_info);
    let ghost s2 = active_table@;
    let ghost pool_mid = allocator.free_frames();
    let old_table = active_table.switch(new_table);
    let ghost s3 = active_table@;
    proof {
        lemma_slots(old_p4, old_p4);
        assert(s3.maps_exactly(new_p4, boot_info, kernel)) by {
            lemma_maps_same(s2, s3, new_p4, boot_info, kernel);
        }
        assert(s3.translate_from(new_p4, old_p4) == Some(old_p4) && s3.leaf(
            new_p4,
            old_p4,
        ).is_some()) by {
            lemma_maps_exactly_means(s3, new_p4, boot_info, kernel, old_p4);
        }
        assert(s3.root() == Some(new_p4));
    }
    let old_p4_page = Page::containing_address(old_table.p4_frame.start_address());
    active_table.mapper_mut().unmap(old_p4_page, allocator);
    proof {
        let s4 = active_table@;
        assert(s4.root() == Some(new_p4));
        assert forall|other: nat|
            p4_index_of(other) != 511 && !same_slot(other, old_p4) implies #[trigger] s4.leaf(
            new_p4,
            other,
        ) == s3.leaf(new_p4, other) by {}
        assert forall|other: nat|
            p4_index_of(other) != 511
                && !same_slot(other, old_p4) implies #[trigger] s4.translate_from(
            new_p4,
            other,
        ) == s3.translate_from(new_p4, other) by {}
        assert forall|other: nat|
            p4_index_of(other) != 511 && !same_slot(other, old_p4) implies #[trigger] s4.path_clear(
            new_p4,
            other,
        ) == s3.path_clear(new_p4, other) by {}
        lemma_unmapped_one(s3, s4, new_p4, boot_info, kernel, old_p4);
        assert(kernel.remove(old_p4) =~= Set::new(
            |q: nat| kernel_holds(boot_info, q) && q != old_p4,
        ));
        lemma_same_hierarchy_means(s3, s2, new_p4);
        assert(s2.is_table(new_p4, new_p4)) by {
            assert(super::hierarchy::TablePath::root().proper());
            assert(s2.table_at(new_p4, super::hierarchy::TablePath::root()) == Some(new_p4));
        }
        assert forall|n: nat| #[trigger] allocator.free_frames().contains(n) implies n
            < s4.frames() && n < ENTRY_FRAME_LIMIT && n != s4.cr3 && !s4.is_table(new_p4, n) by {
            if n != old_p4 {
                assert(pool_mid.contains(n));
                assert(!s2.is_table(new_p4, n));
            }
        }
        if A::reuses() {
            assert(allocator.free_frames() =~= pool_mid.insert(old_p4));
            assert(!pool_mid.contains(old_p4)) by {
                assert(!pool_staged.contains(old_p4));
            }
        }
        assert(s4.tables_are(new_p4, kernel)) by {
            lemma_tables_same(s2, s3, new_p4, kernel, kernel);
            lemma_tables_same(s3, s4, new_p4, kernel, kernel);
        }
    }
    active_table
}

/// A state has come from itself by edits.
pub proof fn lemma_grown_same_edit(s: MachineState, pool: Set<nat>)
    requires
        s.hierarchy_ok(),
    ensures
        s.edited_from(s, pool, pool),
{
    super::hierarchy::lemma_grown_same(s, 0, pool);
    lemma_grown_means(s, s, 0, pool, pool);
}

} // verus!
