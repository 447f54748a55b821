//! The mapper: edits the hierarchy of page tables that the recursive window
//! shows.

use vstd::prelude::*;

use super::entry::{lemma_raw_frame_bounded, raw_entry, raw_present, EntryFlags, ENTRY_FRAME_LIMIT};
use super::frame::Frame;
use super::frame_alloc::FrameAlloc;
use super::hierarchy::{
    lemma_flush_keeps, lemma_grown_by_leaf, lemma_grown_by_table, lemma_grown_further,
    lemma_grown_means, lemma_grown_same, lemma_table_in_memory, lemma_token_page_indices,
    lemma_token_resolves, lemma_with_table_words, same_slot, TablePath,
};
use super::machine::{Machine, MachineState, TlbFlush};
use super::page::{p1_index_of, p4_index_of, Page};
use super::page_table::{PageTable, L4, P4_ADDRESS};
use super::{is_canonical, number_of, start_of, PhysicalAddress, VirtualAddress, PAGE_SIZE};

verus! {

/// Edits the hierarchy of page tables that the machine shows in its
/// recursive window, and owns the machine meanwhile.
pub struct Mapper {
    machine: Machine,
}

impl View for Mapper {
    type V = MachineState;

    closed spec fn view(&self) -> MachineState {
        self.machine@
    }
}

impl Mapper {
    /// The hierarchy that the mapper edits is in order.
    pub open spec fn wf(&self) -> bool {
        self@.hierarchy_ok()
    }

    /// Number of the frame that holds the level-4 table of the hierarchy.
    pub open spec fn root(&self) -> nat {
        self@.root().unwrap()
    }

    /// The frame that the hierarchy maps the page with the given number to.
    pub open spec fn translation(&self, page: nat) -> Option<nat> {
        self@.translate_from(self.root(), page)
    }

    /// The level-1 entry of the page with the given number, where the tables
    /// down to level 1 exist.
    pub open spec fn leaf(&self, page: nat) -> Option<u64> {
        self@.leaf(self.root(), page)
    }

    /// Whether the frame is a table of the hierarchy.
    pub open spec fn is_table(&self, frame: nat) -> bool {
        self@.is_table(self.root(), frame)
    }

    /// The mapper for the hierarchy that the machine's recursive window
    /// shows.
    pub fn new(machine: Machine) -> (r: Mapper)
        requires
            machine@.hierarchy_ok(),
        ensures
            r@ == machine@,
            r.wf(),
    {
        Mapper { machine }
    }

    /// The machine that the mapper works on.
    pub fn machine(&self) -> (r: &Machine)
        ensures
            r@ == self@,
    {
        &self.machine
    }

    /// Gives the machine back.
    pub fn into_machine(self) -> (r: Machine)
        ensures
            r@ == self@,
    {
        self.machine
    }

    pub(crate) fn machine_mut(&mut self) -> (r: &mut Machine)
        ensures
            r@ == old(self)@,
            final(self)@ == final(r)@,
    {
        &mut self.machine
    }

    /// The level-4 table of the hierarchy.
    pub fn p4(&self) -> (r: PageTable<L4>)
        ensures
            r.wf(),
            r.path() == TablePath::root(),
            r.address() == P4_ADDRESS,
    {
        PageTable::recursive_root()
    }

    /// Translates specified virtual address to physical address using currently used page table.
    /// Returns `None` if the address is not mapped.
    pub fn translate(&self, virtual_address: VirtualAddress) -> (r: Option<PhysicalAddress>)
        requires
            self.wf(),
            is_canonical(virtual_address),
            self@.huge_aligned(self.root(), number_of(virtual_address)),
        ensures
            r.is_some() == self.translation(number_of(virtual_address)).is_some(),
            r.is_some() ==> r.unwrap() == self.translation(number_of(virtual_address)).unwrap()
                * 4096 + virtual_address % 4096,
    {
        let offset: u64 = virtual_address % PAGE_SIZE;
        match self.translate_page(Page::containing_address(virtual_address)) {
            Some(frame) => Some(frame.start_address() + offset),
            None => None,
        }
    }

    /// The frame that the page is mapped to, by a level-1 entry or by a huge
    /// page of 1 GiB or 2 MiB.
    pub fn translate_page(&self, page: Page) -> (r: Option<Frame>)
        requires
            self.wf(),
            self@.huge_aligned(self.root(), page@),
        ensures
            r.is_some() == self.translation(page@).is_some(),
            r.is_some() ==> r.unwrap()@ == self.translation(page@).unwrap(),
    {
        let machine = &self.machine;
        let ghost s = self@;
        let ghost root = self.root();
        let ghost path = TablePath::of_page(page@);
        let p4 = self.p4();
        proof {
            lemma_table_in_memory(s, root, TablePath::root());
            assert(path.prefix(1) == TablePath::root().push(path.i4));
            assert(path.prefix(2) == path.prefix(1).push(path.i3));
            assert(path == path.prefix(2).push(path.i2));
        }
        let p3 = match p4.next_table(machine, page.p4_index()) {
            Some(p3) => p3,
            None => {
                return None;
            },
        };
        proof {
            lemma_table_in_memory(s, root, path.prefix(1));
            lemma_token_page_indices(path.prefix(1));
            lemma_token_resolves(s, path.prefix(1));
        }
        let p2 = p3.next_table(machine, page.p3_index());
        proof {
            if p2.is_some() {
                lemma_table_in_memory(s, root, path.prefix(2));
                lemma_token_page_indices(path.prefix(2));
                lemma_token_resolves(s, path.prefix(2));
            }
        }
        let p1 = match &p2 {
            Some(p2) => p2.next_table(machine, page.p2_index()),
            None => None,
        };
        let frame = match &p1 {
            Some(p1) => {
                proof {
                    lemma_table_in_memory(s, root, path);
                    lemma_token_page_indices(path);
                    lemma_token_resolves(s, path);
                }
                p1.entry(machine, page.p1_index()).pointed_frame()
            },
            None => None,
        };
        if frame.is_some() {
            return frame;
        }
        // Handle huge pages

        let p3_entry = p3.entry(machine, page.p3_index());
        // 1GiB page?
        if let Some(start_frame) = p3_entry.pointed_frame() {
            if p3_entry.flags().has(EntryFlags::HUGE_PAGE) {
                // address must be 1GiB aligned
                return Some(
                    Frame::from_number(
                        start_frame.number() + (page.p2_index() as u64) * 512 + (
                        page.p1_index() as u64),
                    ),
                );
            }
        }
        if let Some(p2) = p2 {
            let p2_entry = p2.entry(machine, page.p2_index());
            // 2MiB page?
            if let Some(start_frame) = p2_entry.pointed_frame() {
                if p2_entry.flags().has(EntryFlags::HUGE_PAGE) {
                    // address must be 2MiB aligned
                    return Some(
                        Frame::from_number(start_frame.number() + (page.p1_index() as u64)),
                    );
                }
            }
        }
        None
    }

    /// Maps the page to the frame with the provided flags.
    /// The `PRESENT` flag is added by default. This function needs
    /// a `FrameAllocator` as it might need to create new page tables.
    ///
    /// The page must lie outside the recursive window and must not be mapped
    /// yet, no huge page may lie on the way to its level-1 entry, and the
    /// allocator must hold a fit frame for each table that is missing.
    pub fn map_to<A: FrameAlloc>(
        &mut self,
        page: Page,
        frame: Frame,
        flags: EntryFlags,
        allocator: &mut A,
    )
        requires
            old(self).wf(),
            old(allocator).wf(),
            frame@ < ENTRY_FRAME_LIMIT,
            old(self)@.can_map(page@, old(allocator).free_frames()),
        ensures
            final(self).wf(),
            final(allocator).wf(),
            forall|f: nat| old(allocator).accepts(f) ==> #[trigger] final(allocator).accepts(f),
            final(self)@.root() == old(self)@.root(),
            final(self)@.cr3 == old(self)@.cr3,
            final(self)@.frames() == old(self)@.frames(),
            final(self)@.grown_from(
                old(self)@,
                page@,
                old(allocator).free_frames(),
                final(allocator).free_frames(),
            ),
            final(self).leaf(page@) == Some(raw_entry(frame@, flags@ | EntryFlags::PRESENT)),
            final(self).translation(page@) == Some(frame@),
            final(self)@.flushes == old(self)@.flushes,
            old(self)@.missing_tables(old(self).root(), page@) == 0 ==> final(self)@.grown_from(
                old(self)@,
                page@,
                Set::empty(),
                Set::empty(),
            ),
            old(self)@.missing_tables(old(self).root(), page@) == 0
                ==> *final(allocator) == *old(allocator),
            old(self)@.missing_tables(old(self).root(), page@) > 0
                ==> final(allocator).free_frames().len()
                    + old(self)@.missing_tables(old(self).root(), page@)
                        == old(allocator).free_frames().len(),
            old(self)@.pool_fresh(old(allocator).free_frames()) ==> final(self)@.pool_fresh(
                final(allocator).free_frames(),
            ),
    {
        let ghost s0 = self@;
        let ghost root = self.root();
        let ghost path = TablePath::of_page(page@);
        let ghost pool0 = allocator.free_frames();
        let ghost missing = s0.missing_tables(root, page@);
        proof {
            lemma_raw_frame_bounded(0);
            assert(path.prefix(1) == TablePath::root().push(path.i4));
            assert(path.prefix(2) == path.prefix(1).push(path.i3));
            assert(path == path.prefix(2).push(path.i2));
            assert(TablePath::root().proper() && path.prefix(1).proper() && path.prefix(2).proper()
                && path.proper());
            lemma_table_in_memory(s0, root, TablePath::root());
        }
        let p4 = self.p4();
        let p3 = p4.next_table_create(&mut self.machine, page.p4_index(), allocator);
        let ghost s1 = self@;
        let ghost pool1 = allocator.free_frames();
        let ghost t3 = s1.table_at(root, path.prefix(1)).unwrap();
        proof {
            if raw_present(s0.word(root, path.i4)) {
                lemma_grown_same(s0, page@, pool0);
            } else {
                lemma_grown_by_table(s0, TablePath::root(), path.i4, t3, page@, pool0);
                lemma_with_table_words(s0, root, path.i4, t3);
                assert(s1.word(t3, path.i3) == 0);
            }
            lemma_table_in_memory(s1, root, path.prefix(1));
        }
        let p2 = p3.next_table_create(&mut self.machine, page.p3_index(), allocator);
        let ghost s2 = self@;
        let ghost pool2 = allocator.free_frames();
        let ghost t2 = s2.table_at(root, path.prefix(2)).unwrap();
        proof {
            if raw_present(s1.word(t3, path.i3)) {
                lemma_grown_same(s1, page@, pool1);
            } else {
                lemma_grown_by_table(s1, path.prefix(1), path.i3, t2, page@, pool1);
                lemma_with_table_words(s1, t3, path.i3, t2);
                assert(s2.word(t2, path.i2) == 0);
            }
            lemma_grown_further(s0, s1, s2, page@, pool0, pool1, pool2);
            lemma_table_in_memory(s2, root, path.prefix(2));
        }
        let p1 = p2.next_table_create(&mut self.machine, page.p2_index(), allocator);
        let ghost s3 = self@;
        let ghost pool3 = allocator.free_frames();
        let ghost t1 = s3.table_at(root, path).unwrap();
        proof {
            if raw_present(s2.word(t2, path.i2)) {
                lemma_grown_same(s2, page@, pool2);
            } else {
                lemma_grown_by_table(s2, path.prefix(2), path.i2, t1, page@, pool2);
                lemma_with_table_words(s2, t2, path.i2, t1);
                assert(s3.word(t1, p1_index_of(page@)) == 0);
            }
            lemma_grown_further(s0, s2, s3, page@, pool0, pool2, pool3);
            lemma_table_in_memory(s3, root, path);
            lemma_token_page_indices(path);
            lemma_token_resolves(s3, path);
        }
        let mut entry = p1.entry(&self.machine, page.p1_index());
        assert(entry.is_unused());
        let present = EntryFlags::from_bits_truncate(EntryFlags::PRESENT);
        let all_flags = flags.union(present);
        entry.set(frame, all_flags);
        p1.set_entry(&mut self.machine, page.p1_index(), entry);
        proof {
            let bits = flags@;
            assert(bits | (0x1u64 & 0x8000_0000_0000_01ffu64) == bits | 0x1u64 && (bits | 0x1u64)
                & 0x1u64 == 0x1u64) by (bit_vector);
            lemma_grown_by_leaf(s3, page@, entry.0, pool3);
            lemma_grown_further(s0, s3, self@, page@, pool0, pool3, pool3);
            if missing == 0 {
                assert(s3 == s0);
                lemma_grown_by_leaf(s3, page@, entry.0, Set::empty());
            }
            lemma_grown_means(s3, s0, page@, pool0, pool3);
            lemma_grown_means(self@, s0, page@, pool0, pool3);
        }
    }

    /// Maps the page to some free frame with the provided flags.
    /// The free frame is allocated from the given `FrameAllocator`.
    ///
    /// The allocator must hold a frame for the page besides the frames for
    /// the tables that are missing.
    pub fn map<A: FrameAlloc>(&mut self, page: Page, flags: EntryFlags, allocator: &mut A)
        requires
            old(self).wf(),
            old(allocator).wf(),
            old(self)@.can_map_new(page@, old(allocator).free_frames()),
        ensures
            final(self).wf(),
            final(allocator).wf(),
            forall|f: nat| old(allocator).accepts(f) ==> #[trigger] final(allocator).accepts(f),
            final(self)@.root() == old(self)@.root(),
            final(self)@.cr3 == old(self)@.cr3,
            final(self)@.frames() == old(self)@.frames(),
            final(self).translation(page@).is_some(),
            final(self).translation(page@) == old(allocator).next_frame(),
            old(allocator).free_frames().contains(final(self).translation(page@).unwrap()),
            !final(allocator).free_frames().contains(final(self).translation(page@).unwrap()),
            final(self)@.grown_from(
                old(self)@,
                page@,
                old(allocator).free_frames().remove(final(self).translation(page@).unwrap()),
                final(allocator).free_frames(),
            ),
            final(self).leaf(page@) == Some(
                raw_entry(final(self).translation(page@).unwrap(), flags@ | EntryFlags::PRESENT),
            ),
            final(self)@.flushes == old(self)@.flushes,
            final(allocator).free_frames().len() + old(self)@.missing_tables(
                old(self).root(),
                page@,
            ) + 1 == old(allocator).free_frames().len(),
            old(self)@.pool_fresh(old(allocator).free_frames()) ==> final(self)@.pool_fresh(
                final(allocator).free_frames(),
            ),
    {
        let ghost pool = allocator.free_frames();
        let frame = allocator.alloc_frame().unwrap();
        proof {
            assert(pool.remove(frame@).len() == pool.len() - 1);
        }
        let ghost taken = frame@;
        let ghost before = self@;
        self.map_to(page, frame, flags, allocator);
        proof {
            lemma_grown_means(
                self@,
                before,
                page@,
                pool.remove(taken),
                allocator.free_frames(),
            );
        }
    }

    /// Identity map the given frame with the provided flags.
    /// The `FrameAllocator` is used to create new page tables if needed.
    ///
    /// The frame's start address must be a canonical virtual address, and
    /// it must fit into an entry.
    pub fn identity_map<A: FrameAlloc>(
        &mut self,
        frame: Frame,
        flags: EntryFlags,
        allocator: &mut A,
    )
        requires
            old(self).wf(),
            old(allocator).wf(),
            frame@ < ENTRY_FRAME_LIMIT,
            start_of(frame@) < 0x0000_8000_0000_0000,
            old(self)@.can_map(frame@, old(allocator).free_frames()),
        ensures
            final(self).wf(),
            final(allocator).wf(),
            forall|f: nat| old(allocator).accepts(f) ==> #[trigger] final(allocator).accepts(f),
            final(self)@.root() == old(self)@.root(),
            final(self)@.cr3 == old(self)@.cr3,
            final(self)@.frames() == old(self)@.frames(),
            final(self)@.grown_from(
                old(self)@,
                frame@,
                old(allocator).free_frames(),
                final(allocator).free_frames(),
            ),
            final(self).leaf(frame@) == Some(raw_entry(frame@, flags@ | EntryFlags::PRESENT)),
            final(self).translation(frame@) == Some(frame@),
            final(self)@.flushes == old(self)@.flushes,
            old(self)@.missing_tables(old(self).root(), frame@) == 0 ==> final(self)@.grown_from(
                old(self)@,
                frame@,
                Set::empty(),
                Set::empty(),
            ),
            old(self)@.missing_tables(old(self).root(), frame@) == 0
                ==> *final(allocator) == *old(allocator),
            old(self)@.missing_tables(old(self).root(), frame@) > 0
                ==> final(allocator).free_frames().len()
                    + old(self)@.missing_tables(old(self).root(), frame@)
                        == old(allocator).free_frames().len(),
            old(self)@.pool_fresh(old(allocator).free_frames()) ==> final(self)@.pool_fresh(
                final(allocator).free_frames(),
            ),
    {
        let page = Page::containing_address(frame.start_address());
        self.map_to(page, frame, flags, allocator)
    }

    /// Unmaps the given page and adds all freed frames to the given
    /// `FrameAllocator`. The tables that become empty stay where they are.
    ///
    /// The page must be mapped by a level-1 entry and lie outside the
    /// recursive window.
    pub fn unmap<A: FrameAlloc>(&mut self, page: Page, allocator: &mut A)
        requires
            old(self).wf(),
            old(allocator).wf(),
            old(self)@.mapped_small(page@),
            old(allocator).accepts(old(self).translation(page@).unwrap()),
        ensures
            final(self).wf(),
            final(allocator).wf(),
            final(self)@ == old(self)@.write(
                old(self)@.table_at(old(self).root(), TablePath::of_page(page@)).unwrap(),
                p1_index_of(page@),
                0,
            ).flush(TlbFlush::Address(start_of(page@) as u64)),
            final(self).root() == old(self).root(),
            final(self).translation(page@).is_none(),
            final(self).leaf(page@) == Some(0u64),
            forall|other: nat|
                p4_index_of(other) != 511 && !same_slot(other, page@)
                    ==> #[trigger] final(self)@.translate_from(old(self).root(), other)
                        == old(self).translation(other),
            forall|other: nat|
                p4_index_of(other) != 511 && !same_slot(other, page@)
                    ==> #[trigger] final(self)@.leaf(old(self).root(), other)
                        == old(self).leaf(other),
            forall|other: nat|
                p4_index_of(other) != 511 && !same_slot(other, page@)
                    ==> #[trigger] final(self)@.path_clear(old(self).root(), other)
                        == old(self)@.path_clear(
                    old(self).root(),
                    other,
                ),
            final(self)@.path_clear(old(self).root(), page@),
            forall|x: nat| #[trigger] final(self)@.is_table(old(self).root(), x)
                <==> old(self).is_table(x),
            forall|q: TablePath|
                q.proper() ==> #[trigger] final(self)@.table_at(old(self).root(), q)
                    == old(self)@.table_at(old(self).root(), q),
            A::reuses() ==> final(allocator).free_frames() == old(allocator).free_frames().insert(
                old(self).translation(page@).unwrap(),
            ),
            !A::reuses() ==> final(allocator).free_frames() == old(allocator).free_frames(),
    {
        let ghost s = self@;
        let ghost root = self.root();
        let ghost path = TablePath::of_page(page@);
        proof {
            lemma_raw_frame_bounded(0);
            assert(path.prefix(1) == TablePath::root().push(path.i4));
            assert(path.prefix(2) == path.prefix(1).push(path.i3));
            assert(path == path.prefix(2).push(path.i2));
            lemma_table_in_memory(s, root, TablePath::root());
            lemma_table_in_memory(s, root, path.prefix(1));
            lemma_table_in_memory(s, root, path.prefix(2));
            lemma_table_in_memory(s, root, path);
            lemma_token_page_indices(path);
            lemma_token_resolves(s, path);
        }
        let p3 = self.p4().next_table(&self.machine, page.p4_index()).unwrap();
        let p2 = p3.next_table(&self.machine, page.p3_index()).unwrap();
        let p1 = p2.next_table(&self.machine, page.p2_index()).unwrap();
        let mut entry = p1.entry(&self.machine, page.p1_index());
        let frame = entry.pointed_frame().unwrap();
        entry.set_unused();
        p1.set_entry(&mut self.machine, page.p1_index(), entry);
        proof {
            super::hierarchy::lemma_write_leaf(s, page@, 0);
            lemma_flush_keeps(self@, TlbFlush::Address(start_of(page@) as u64));
            assert(self@.path_clear(root, page@));
        }
        self.machine.flush_tlb(page.start_address());
        allocator.dealloc(frame);
    }
}

} // verus!
