//! The temporary page: one virtual page that is mapped to a frame for the
//! time it takes to edit that frame as a page table.

use vstd::prelude::*;

use super::active_page_table::ActivePageTable;
use super::entry::{raw_entry, EntryFlags, ENTRY_FRAME_LIMIT};
use super::frame::Frame;
use super::frame_alloc::FrameAlloc;
use super::hierarchy::{lemma_grown_means, TablePath};
use super::page::{p1_index_of, Page};
use super::page_table::{PageTable, L1};
use super::{start_of, VirtualAddress};

verus! {

pub struct TmpPage {
    page: Page,
    allocator: TmpPageFrameAlloc,
}

impl TmpPage {
    /// The page that is mapped for a time.
    pub closed spec fn page(&self) -> nat {
        self.page@
    }

    /// The frames that the temporary page keeps for the tables on the way to
    /// its own level-1 entry.
    pub closed spec fn reserve(&self) -> Set<nat> {
        self.allocator.free_frames()
    }

    /// The page's own allocator is in order.
    pub closed spec fn wf(&self) -> bool {
        self.allocator.wf()
    }

    /// Whether the page's own allocator has room to take the frame back: it
    /// keeps fewer than three frames, and not this one.
    pub open spec fn accepts(&self, frame: nat) -> bool {
        self.reserve().len() < 3 && !self.reserve().contains(frame)
    }

    /// The temporary page keeps at most three frames.
    pub proof fn lemma_reserve(&self)
        requires
            self.wf(),
        ensures
            self.reserve().finite(),
            self.reserve().len() <= 3,
    {
        self.allocator.lemma_count();
    }

    /// The temporary page at `page`. It takes three frames from the
    /// allocator, as far as the allocator has them, and keeps them in the
    /// order in which they came: enough for the tables of the three levels
    /// below the level-4 table.
    pub fn new<A: FrameAlloc>(page: Page, allocator: &mut A) -> (r: TmpPage)
        requires
            old(allocator).wf(),
        ensures
            final(allocator).wf(),
            r.wf(),
            r.page() == page@,
            r.reserve().finite(),
            r.reserve().subset_of(old(allocator).free_frames()),
            final(allocator).free_frames() == old(allocator).free_frames().difference(r.reserve()),
            old(allocator).free_frames().len() >= 3 ==> r.reserve().len() == 3,
            old(allocator).free_frames().len() < 3 ==> r.reserve() == old(allocator).free_frames(),
            r.reserve().len() == (if old(allocator).free_frames().len() >= 3 {
                3
            } else {
                old(allocator).free_frames().len()
            }),
            old(allocator).next_frame().is_some() ==> r.reserve().contains(
                old(allocator).next_frame().unwrap(),
            ),
            forall|f: nat| old(allocator).accepts(f) ==> #[trigger] final(allocator).accepts(f),
    {
        TmpPage { page, allocator: TmpPageFrameAlloc::new(allocator) }
    }

    /// Maps the temporary page to the given frame in the active table.
    /// Returns the start address of the temporary page.
    ///
    /// The temporary page must not be mapped already.
    pub fn map(&mut self, frame: Frame, active_table: &mut ActivePageTable) -> (r: VirtualAddress)
        requires
            old(self).wf(),
            old(active_table).wf(),
            frame@ < ENTRY_FRAME_LIMIT,
            old(active_table)@.can_map(old(self).page(), old(self).reserve()),
        ensures
            final(self).wf(),
            final(self).page() == old(self).page(),
            final(active_table).wf(),
            r == start_of(old(self).page()),
            final(active_table)@.grown_from(
                old(active_table)@,
                old(self).page(),
                old(self).reserve(),
                final(self).reserve(),
            ),
            final(active_table).translation(old(self).page()) == Some(frame@),
            final(active_table).leaf(old(self).page()) == Some(
                raw_entry(frame@, EntryFlags::WRITABLE | EntryFlags::PRESENT),
            ),
            final(active_table)@.flushes == old(active_table)@.flushes,
            old(active_table)@.missing_tables(old(active_table).root(), old(self).page()) == 0
                ==> final(self).reserve() == old(self).reserve() && final(active_table)@.grown_from(
                old(active_table)@,
                old(self).page(),
                Set::empty(),
                Set::empty(),
            ),
            old(active_table)@.missing_tables(old(active_table).root(), old(self).page()) > 0
                ==> final(self).reserve().len() + old(active_table)@.missing_tables(
                old(active_table).root(),
                old(self).page(),
            ) == old(self).reserve().len(),
    {
        let ghost before = active_table@;
        let ghost reserve = self.reserve();
        let writable = EntryFlags::from_bits_truncate(EntryFlags::WRITABLE);
        assert(EntryFlags::WRITABLE & EntryFlags::ALL == EntryFlags::WRITABLE) by (bit_vector);
        active_table.mapper_mut().map_to(self.page, frame, writable, &mut self.allocator);
        proof {
            lemma_grown_means(active_table@, before, self.page(), reserve, self.reserve());
        }
        self.page.start_address()
    }

    /// Unmaps the temporary page in the active table. The frame that it was
    /// mapped to goes to the page's own allocator.
    pub fn unmap(&mut self, active_table: &mut ActivePageTable)
        requires
            old(self).wf(),
            old(active_table).wf(),
            old(active_table)@.mapped_small(old(self).page()),
            old(self).accepts(old(active_table).translation(old(self).page()).unwrap()),
        ensures
            final(self).wf(),
            final(self).page() == old(self).page(),
            final(active_table).wf(),
            final(active_table)@ == old(active_table)@.write(
                old(active_table)@.table_at(
                    old(active_table).root(),
                    TablePath::of_page(old(self).page()),
                ).unwrap(),
                p1_index_of(old(self).page()),
                0,
            ).flush(super::machine::TlbFlush::Address(start_of(old(self).page()) as u64)),
            final(self).reserve() == old(self).reserve().insert(
                old(active_table).translation(old(self).page()).unwrap(),
            ),
    {
        proof {
            self.allocator.lemma_count();
        }
        active_table.mapper_mut().unmap(self.page, &mut self.allocator)
    }

    /// Maps the temporary page to the given page table frame in the active
    /// table. Returns the now mapped table.
    pub fn map_table_frame(&mut self, frame: Frame, active_table: &mut ActivePageTable) -> (r:
        PageTable<L1>)
        requires
            old(self).wf(),
            old(active_table).wf(),
            frame@ < ENTRY_FRAME_LIMIT,
            frame@ < old(active_table)@.frames(),
            old(active_table)@.can_map(old(self).page(), old(self).reserve()),
        ensures
            final(self).wf(),
            final(self).page() == old(self).page(),
            final(active_table).wf(),
            r.address() == start_of(old(self).page()),
            r.usable(final(active_table)@),
            r.frame_in(final(active_table)@) == Some(frame@),
            final(active_table)@.grown_from(
                old(active_table)@,
                old(self).page(),
                old(self).reserve(),
                final(self).reserve(),
            ),
            final(active_table).translation(old(self).page()) == Some(frame@),
            final(active_table).leaf(old(self).page()) == Some(
                raw_entry(frame@, EntryFlags::WRITABLE | EntryFlags::PRESENT),
            ),
            final(active_table)@.flushes == old(active_table)@.flushes,
            old(active_table)@.missing_tables(old(active_table).root(), old(self).page()) == 0
                ==> final(self).reserve() == old(self).reserve() && final(active_table)@.grown_from(
                old(active_table)@,
                old(self).page(),
                Set::empty(),
                Set::empty(),
            ),
            old(active_table)@.missing_tables(old(active_table).root(), old(self).page()) > 0
                ==> final(self).reserve().len() + old(active_table)@.missing_tables(
                old(active_table).root(),
                old(self).page(),
            ) == old(self).reserve().len(),
    {
        let ghost before = active_table@;
        let ghost reserve = self.reserve();
        let address = self.map(frame, active_table);
        proof {
            lemma_grown_means(active_table@, before, self.page(), reserve, self.reserve());
        }
        PageTable::at(address)
    }
}

/// The three frames that a temporary page keeps for its tables.
pub struct TmpPageFrameAlloc {
    first: Option<Frame>,
    second: Option<Frame>,
    third: Option<Frame>,
}

impl TmpPageFrameAlloc {
    spec fn held(slot: Option<Frame>) -> Set<nat> {
        match slot {
            Some(frame) => set![frame@],
            None => Set::empty(),
        }
    }

    spec fn apart(a: Option<Frame>, b: Option<Frame>) -> bool {
        a.is_some() && b.is_some() ==> a.unwrap()@ != b.unwrap()@
    }

    spec fn count(&self) -> nat {
        (if self.first.is_some() {
            1nat
        } else {
            0nat
        }) + (if self.second.is_some() {
            1nat
        } else {
            0nat
        }) + (if self.third.is_some() {
            1nat
        } else {
            0nat
        })
    }

    /// There are as many free frames as places that hold one.
    proof fn lemma_count(&self)
        requires
            self.wf(),
        ensures
            self.free_frames().finite(),
            self.free_frames().len() == self.count(),
            forall|f: nat| self.accepts(f) <==> self.count() < 3 && !self.free_frames().contains(f),
    {
        let a = Self::held(self.first);
        let b = Self::held(self.second);
        let c = Self::held(self.third);
        assert(a.finite() && b.finite() && c.finite());
        assert(a.len() == (if self.first.is_some() {
            1nat
        } else {
            0nat
        }));
        assert(b.len() == (if self.second.is_some() {
            1nat
        } else {
            0nat
        }));
        assert(c.len() == (if self.third.is_some() {
            1nat
        } else {
            0nat
        }));
        vstd::set_lib::lemma_set_disjoint_lens(a, b);
        assert(a.disjoint(b));
        assert(a.union(b).disjoint(c));
        vstd::set_lib::lemma_set_disjoint_lens(a.union(b), c);
    }

    fn new<A: FrameAlloc>(parent_allocator: &mut A) -> (r: TmpPageFrameAlloc)
        requires
            old(parent_allocator).wf(),
        ensures
            final(parent_allocator).wf(),
            r.wf(),
            r.free_frames().finite(),
            r.free_frames().subset_of(old(parent_allocator).free_frames()),
            final(parent_allocator).free_frames() == old(parent_allocator).free_frames().difference(
                r.free_frames(),
            ),
            old(parent_allocator).free_frames().len() >= 3 ==> r.free_frames().len() == 3,
            old(parent_allocator).free_frames().len() < 3 ==> r.free_frames() == old(parent_allocator).free_frames(),
            old(parent_allocator).next_frame().is_some() ==> r.free_frames().contains(
                old(parent_allocator).next_frame().unwrap(),
            ),
            r.next_frame() == old(parent_allocator).next_frame(),
            forall|f: nat|
                old(parent_allocator).accepts(f) ==> #[trigger] final(parent_allocator).accepts(f),
    {
        let ghost pool = parent_allocator.free_frames();
        let first = parent_allocator.alloc_frame();
        let ghost pool1 = parent_allocator.free_frames();
        let second = parent_allocator.alloc_frame();
        let ghost pool2 = parent_allocator.free_frames();
        let third = parent_allocator.alloc_frame();
        let r = TmpPageFrameAlloc { first, second, third };
        proof {
            assert(parent_allocator.free_frames() =~= pool.difference(r.free_frames()));
            if pool.len() >= 3 {
                assert(pool1.len() == pool.len() - 1);
                assert(pool2.len() == pool1.len() - 1);
                assert(r.free_frames() =~= set![first.unwrap()@, second.unwrap()@, third.unwrap()@]);
            } else {
                if first.is_some() {
                    assert(pool1.len() == pool.len() - 1);
                    if second.is_some() {
                        assert(pool2.len() == pool1.len() - 1);
                        assert(third.is_none());
                    }
                }
                assert(parent_allocator.free_frames().len() == 0);
                parent_allocator.free_frames().lemma_len0_is_empty();
                assert(r.free_frames() =~= pool);
            }
        }
        r
    }
}

impl FrameAlloc for TmpPageFrameAlloc {
    closed spec fn wf(&self) -> bool {
        &&& Self::apart(self.first, self.second)
        &&& Self::apart(self.first, self.third)
        &&& Self::apart(self.second, self.third)
    }

    closed spec fn free_frames(&self) -> Set<nat> {
        Self::held(self.first).union(Self::held(self.second)).union(Self::held(self.third))
    }

    /// The frame in the first place that holds one.
    closed spec fn next_frame(&self) -> Option<nat> {
        if self.first.is_some() {
            Some(self.first.unwrap()@)
        } else if self.second.is_some() {
            Some(self.second.unwrap()@)
        } else if self.third.is_some() {
            Some(self.third.unwrap()@)
        } else {
            None
        }
    }

    closed spec fn accepts(&self, frame: nat) -> bool {
        &&& self.first.is_none() || self.second.is_none() || self.third.is_none()
        &&& !self.free_frames().contains(frame)
    }

    open spec fn reuses() -> bool {
        true
    }

    fn alloc_frame(&mut self) -> (r: Option<Frame>) {
        let ghost before = self.free_frames();
        if self.first.is_some() {
            let r = self.first.take();
            proof {
                assert(self.free_frames() =~= before.remove(r.unwrap()@));
                assert(before.len() > 0) by {
                    if before.len() == 0 {
                        before.lemma_len0_is_empty();
                    }
                }
            }
            return r;
        }
        if self.second.is_some() {
            let r = self.second.take();
            proof {
                assert(self.free_frames() =~= before.remove(r.unwrap()@));
                assert(before.len() > 0) by {
                    if before.len() == 0 {
                        before.lemma_len0_is_empty();
                    }
                }
            }
            return r;
        }
        if self.third.is_some() {
            let r = self.third.take();
            proof {
                assert(self.free_frames() =~= before.remove(r.unwrap()@));
                assert(before.len() > 0) by {
                    if before.len() == 0 {
                        before.lemma_len0_is_empty();
                    }
                }
            }
            return r;
        }
        proof {
            assert(before =~= Set::empty());
        }
        None
    }

    /// Keeps the frame in the first empty place.
    fn dealloc(&mut self, frame: Frame) {
        let ghost before = self.free_frames();
        if self.first.is_none() {
            self.first = Some(frame);
        } else if self.second.is_none() {
            self.second = Some(frame);
        } else {
            self.third = Some(frame);
        }
        proof {
            assert(self.free_frames() =~= before.insert(frame@));
        }
    }
}

} // verus!
