//! Stacks with guard pages.

use vstd::prelude::*;

use super::paging::demand::page_range;
use super::paging::entry::{lemma_flag_bits, EntryFlags};
use super::paging::map_range::{lemma_beside, lemma_mapped_range_means, map_pages};
use super::paging::page::p4_index_of;
use super::paging::remap::{range_pages, SLOT_COUNT};
use super::paging::{end_of, start_of, ActivePageTable, FrameAlloc, PageIter, FRAME_LIMIT};

verus! {

/// A stack: `top` is the address after its last byte, `bottom` the address
/// of its first byte.
#[derive(Debug)]
pub struct Stack {
    top: u64,
    bottom: u64,
}

impl Stack {
    #[verifier::type_invariant]
    spec fn inv(self) -> bool {
        self.top > self.bottom
    }

    /// The address after the stack's last byte.
    pub closed spec fn spec_top(&self) -> u64 {
        self.top
    }

    /// The address of the stack's first byte.
    pub closed spec fn spec_bottom(&self) -> u64 {
        self.bottom
    }

    fn new(top: u64, bottom: u64) -> (r: Stack)
        requires
            top > bottom,
        ensures
            r.spec_top() == top,
            r.spec_bottom() == bottom,
    {
        Stack { top, bottom }
    }

    /// The address after the stack's last byte.
    #[verifier::when_used_as_spec(spec_top)]
    pub fn top(&self) -> (r: u64)
        ensures
            r == self.spec_top(),
            r > self.spec_bottom(),
    {
        proof {
            use_type_invariant(self);
        }
        self.top
    }

    /// The address of the stack's first byte.
    #[verifier::when_used_as_spec(spec_bottom)]
    pub fn bottom(&self) -> (r: u64)
        ensures
            r == self.spec_bottom(),
    {
        self.bottom
    }
}

/// Hands out stacks from a range of pages. Below each stack one page stays
/// unmapped, so that a stack that overflows faults.
#[derive(Debug)]
pub struct StackAllocator {
    page_range: PageIter,
}

impl StackAllocator {
    /// Number of the next page of the range: the guard page of the next
    /// stack.
    pub closed spec fn front(&self) -> nat {
        self.page_range.front()
    }

    /// Number of the last page of the range.
    pub closed spec fn back(&self) -> nat {
        self.page_range.back()
    }

    /// The allocator for the pages of the range.
    pub fn new(page_range: PageIter) -> (r: StackAllocator)
        ensures
            r.front() == page_range.front(),
            r.back() == page_range.back(),
    {
        StackAllocator { page_range }
    }

    /// Whether the range still holds a guard page and `size_in_pages` pages.
    pub open spec fn fits(&self, size_in_pages: nat) -> bool {
        size_in_pages > 0 && self.front() + size_in_pages <= self.back()
    }

    /// A stack of `size_in_pages` pages: takes one guard page, which stays
    /// as it is, unmapped where it was so, and the pages of the stack, which
    /// are mapped writable, each to a fresh frame. Returns `None` if
    /// `size_in_pages` is zero or the range is used up; nothing has changed
    /// then.
    ///
    /// The pages of the stack must lie outside the recursive window, be
    /// fewer than 2^36 and not be mapped so far, and the allocator must hold
    /// a frame for each of them and one for each table that is missing on
    /// the ways to them, all fit to become tables.
    pub fn alloc_stack<A: FrameAlloc>(
        &mut self,
        active_table: &mut ActivePageTable,
        frame_alloc: &mut A,
        size_in_pages: usize,
    ) -> (r: Option<Stack>)
        requires
            old(active_table).wf(),
            old(frame_alloc).wf(),
            old(self).fits(size_in_pages as nat) ==> {
                &&& size_in_pages < SLOT_COUNT
                &&& forall|q: nat|
                    old(self).front() < q <= old(self).front() + size_in_pages
                        ==> #[trigger] p4_index_of(q) != 511
                &&& forall|q: nat|
                    old(self).front() < q <= old(self).front() + size_in_pages
                        ==> #[trigger] old(active_table)@.path_clear(old(active_table).root(), q)
                &&& old(frame_alloc).free_frames().finite()
                &&& old(frame_alloc).free_frames().len() >= old(active_table)@.missing_for(
                    old(active_table).root(),
                    page_range(old(self).front() + 1, old(self).front() + size_in_pages as nat),
                ).len() + size_in_pages
                &&& old(active_table)@.pool_fresh(old(frame_alloc).free_frames())
            },
        ensures
            final(active_table).wf(),
            final(frame_alloc).wf(),
            final(self).back() == old(self).back(),
            r.is_some() <==> old(self).fits(size_in_pages as nat),
            r.is_none()
                ==> final(self).front() == old(self).front()
                    && final(active_table)@ == old(active_table)@
                        && *final(frame_alloc) == *old(frame_alloc),
            r.is_some() ==> {
                &&& r.unwrap().spec_bottom() == start_of(old(self).front() + 1)
                &&& r.unwrap().spec_top() == end_of(old(self).front() + size_in_pages as nat)
                &&& r.unwrap().spec_top() - r.unwrap().spec_bottom() == size_in_pages * 4096
                &&& final(self).front() == old(self).front() + size_in_pages + 1
                &&& final(active_table)@.mapped_range_from(
                    old(active_table)@,
                    old(self).front() + 1,
                    old(self).front() + size_in_pages as nat + 1,
                    EntryFlags::WRITABLE,
                    old(frame_alloc).free_frames(),
                    final(frame_alloc).free_frames(),
                )
                &&& final(active_table)@.grew_for(
                    old(active_table)@,
                    old(active_table).root(),
                    page_range(old(self).front() + 1, old(self).front() + size_in_pages as nat),
                )
                &&& p4_index_of(old(self).front()) != 511 ==> final(active_table)@.translate_from(
                    old(active_table).root(),
                    old(self).front(),
                ) == old(active_table)@.translate_from(old(active_table).root(), old(self).front())
                &&& final(active_table)@.pool_fresh(final(frame_alloc).free_frames())
                &&& final(frame_alloc).free_frames().len() + old(active_table)@.missing_for(
                    old(active_table).root(),
                    page_range(old(self).front() + 1, old(self).front() + size_in_pages as nat),
                ).len() + size_in_pages == old(frame_alloc).free_frames().len()
            },
    {
        if size_in_pages == 0 {
            return None;
        }
        let mut range = self.page_range;
        let ghost front = self.front();
        let guard_page = range.next();
        let start_page = range.next();
        let end_page = if size_in_pages == 1 {
            start_page
        } else {
            range.nth((size_in_pages - 2) as u64)
        };
        match (guard_page, start_page, end_page) {
            (Some(_), Some(start), Some(end)) => {
                proof {
                    assert(range_pages(start@, end@) == size_in_pages);
                    lemma_flag_bits();
                    let state = active_table@;
                    let root = active_table.root();
                    assert forall|q: nat| start@ <= q <= end@ implies #[trigger] state.path_clear(
                        root,
                        q,
                    ) by {
                        assert(front < q <= front + size_in_pages);
                    }
                    assert forall|q: nat| start@ <= q <= end@ implies #[trigger] p4_index_of(q)
                        != 511 by {
                        assert(front < q <= front + size_in_pages);
                    }
                    assert(p4_index_of((FRAME_LIMIT - 1) as nat) == 511);
                }
                map_pages(
                    active_table.mapper_mut(),
                    start,
                    end,
                    EntryFlags::writable(),
                    frame_alloc,
                );
                proof {
                    lemma_mapped_range_means(
                        active_table@,
                        old(active_table)@,
                        front + 1,
                        front + size_in_pages as nat + 1,
                        EntryFlags::WRITABLE,
                        old(frame_alloc).free_frames(),
                        frame_alloc.free_frames(),
                    );
                    lemma_beside(front, front + 1, front + size_in_pages as nat + 1);
                }
                self.page_range = range;
                Some(Stack::new(end.end_address(), start.start_address()))
            },
            _ => None,
        }
    }
}

} // verus!
