//! Services for handling system interrupts

use vstd::prelude::*;

use crate::kio::idt::{create_idt, initial_entry, Idt};
use crate::mem::paging::demand::{
    lemma_grew_further, lemma_missing_finite, lemma_missing_then, lemma_missing_union, page_range,
};
use crate::mem::paging::entry::{raw_entry, EntryFlags};
use crate::mem::paging::map_range::{lemma_mapped_range_means, lemma_shares_slot_low};
use crate::mem::paging::page::p4_index_of;
use crate::mem::paging::remap::{lemma_slots, slot_of};
use crate::mem::paging::{FrameAlloc, MachineState, FRAME_LIMIT};
use crate::mem::MemorySystem;

verus! {

/// The part of the task state segment that the kernel fills in: the
/// addresses of the tops of the stacks of the interrupt stack table.
#[derive(Clone, Copy, Debug)]
pub struct TaskStateSegment {
    pub interrupt_stack_table: [u64; 7],
}

/// What the kernel hands to the processor to have interrupts delivered.
#[derive(Debug)]
pub struct InterruptTables {
    pub idt: Idt,
    pub tss: TaskStateSegment,
}

/// The pages of the two stacks that `init` takes from an allocator of
/// stacks whose next page has the number `front`: each stack is one page
/// and has its guard page below it.
pub open spec fn handler_stack_pages(front: nat) -> Set<nat> {
    page_range(front + 1, front + 1).union(page_range(front + 3, front + 3))
}

/// The two stacks of the interrupt handlers have been mapped since
/// `before`: each of their pages to a frame of its own that was free and is
/// so no more, writable, and outside the recursive window no other page is
/// translated otherwise than before.
pub open spec fn handler_stacks_mapped(
    state: MachineState,
    before: MachineState,
    front: nat,
    pool_before: Set<nat>,
    pool_after: Set<nat>,
) -> bool {
    let root = before.root().unwrap();
    &&& state.hierarchy_ok()
    &&& state.root() == before.root()
    &&& state.cr3 == before.cr3
    &&& state.frames() == before.frames()
    &&& state.flushes == before.flushes
    &&& pool_after.subset_of(pool_before)
    &&& forall|page: nat|
        handler_stack_pages(front).contains(page) ==> {
            &&& (#[trigger] state.translate_from(root, page)).is_some()
            &&& pool_before.contains(state.translate_from(root, page).unwrap())
            &&& !pool_after.contains(state.translate_from(root, page).unwrap())
            &&& state.leaf(root, page) == Some(
                raw_entry(
                    state.translate_from(root, page).unwrap(),
                    EntryFlags::WRITABLE | EntryFlags::PRESENT,
                ),
            )
        }
    &&& state.translate_from(root, front + 1) != state.translate_from(root, front + 3)
    &&& forall|other: nat|
        other < FRAME_LIMIT && p4_index_of(other) != 511 && !handler_stack_pages(front).contains(
            slot_of(other),
        ) ==> #[trigger] state.translate_from(root, other) == before.translate_from(root, other)
}

/// The first of the two stacks needs no more tables than both.
proof fn lemma_first_stack(s0: MachineState, root: nat, front: nat)
    ensures
        s0.missing_for(root, page_range(front + 1, front + 1)).len() <= s0.missing_for(
            root,
            handler_stack_pages(front),
        ).len(),
        handler_stack_pages(front).contains(front + 1),
        handler_stack_pages(front).contains(front + 3),
{
    let first = page_range(front + 1, front + 1);
    let second = page_range(front + 3, front + 3);
    assert(first.contains(front + 1) && second.contains(front + 3));
    lemma_missing_union(s0, root, first, second);
    lemma_missing_finite(s0, root, handler_stack_pages(front));
    vstd::set_lib::lemma_len_subset(
        s0.missing_for(root, first),
        s0.missing_for(root, handler_stack_pages(front)),
    );
}

/// Once the first stack is mapped, the page of the second is free as it
/// was, and the tables that it still needs are those that both needed but
/// for those of the first.
proof fn lemma_second_stack(
    s0: MachineState,
    s1: MachineState,
    root: nat,
    front: nat,
    pool0: Set<nat>,
    pool1: Set<nat>,
)
    requires
        s0.root() == Some(root),
        front + 3 < 0x8_0000_0000,
        s0.path_clear(root, front + 3),
        s1.mapped_range_from(s0, front + 1, front + 2, EntryFlags::WRITABLE, pool0, pool1),
        s1.grew_for(s0, root, page_range(front + 1, front + 1)),
    ensures
        s1.root() == Some(root),
        s1.path_clear(root, front + 3),
        s0.missing_for(root, handler_stack_pages(front)).len() == s0.missing_for(
            root,
            page_range(front + 1, front + 1),
        ).len() + s1.missing_for(root, page_range(front + 3, front + 3)).len(),
{
    lemma_slots(front + 3, front + 3);
    lemma_shares_slot_low(front + 3, front + 1, front + 2);
    lemma_mapped_range_means(s1, s0, front + 1, front + 2, EntryFlags::WRITABLE, pool0, pool1);
    lemma_missing_then(
        s0,
        s1,
        root,
        page_range(front + 1, front + 1),
        page_range(front + 3, front + 3),
    );
}

/// One stack mapped after the other is both stacks mapped.
proof fn lemma_both_stacks(
    s0: MachineState,
    s1: MachineState,
    s2: MachineState,
    root: nat,
    front: nat,
    pool0: Set<nat>,
    pool1: Set<nat>,
    pool2: Set<nat>,
)
    requires
        s0.root() == Some(root),
        front + 3 < 0x8_0000_0000,
        s1.mapped_range_from(s0, front + 1, front + 2, EntryFlags::WRITABLE, pool0, pool1),
        s1.grew_for(s0, root, page_range(front + 1, front + 1)),
        s2.mapped_range_from(s1, front + 3, front + 4, EntryFlags::WRITABLE, pool1, pool2),
        s2.grew_for(s1, root, page_range(front + 3, front + 3)),
    ensures
        handler_stacks_mapped(s2, s0, front, pool0, pool2),
        s2.grew_for(s0, root, handler_stack_pages(front)),
{
    let first = page_range(front + 1, front + 1);
    let second = page_range(front + 3, front + 3);
    lemma_slots(front + 1, front + 1);
    lemma_slots(front + 3, front + 3);
    lemma_shares_slot_low(front + 1, front + 3, front + 4);
    lemma_mapped_range_means(s1, s0, front + 1, front + 2, EntryFlags::WRITABLE, pool0, pool1);
    lemma_mapped_range_means(s2, s1, front + 3, front + 4, EntryFlags::WRITABLE, pool1, pool2);
    lemma_grew_further(s0, s1, s2, root, first, second);
    assert(s1.translate_from(root, front + 1).is_some());
    assert(s1.leaf(root, front + 1).is_some());
    assert(s2.translate_from(root, front + 3).is_some());
    assert(s2.translate_from(root, front + 1) == s1.translate_from(root, front + 1));
    assert(s2.leaf(root, front + 1) == s1.leaf(root, front + 1));
    assert forall|page: nat| handler_stack_pages(front).contains(page) implies page == front + 1
        || page == front + 3 by {
        assert(first.contains(page) || second.contains(page));
    }
    assert forall|other: nat|
        other < FRAME_LIMIT && p4_index_of(other) != 511 && !handler_stack_pages(front).contains(
            slot_of(other),
        ) implies #[trigger] s2.translate_from(root, other) == s0.translate_from(root, other) by {
        lemma_shares_slot_low(other, front + 1, front + 2);
        lemma_shares_slot_low(other, front + 3, front + 4);
        assert(slot_of(other) != front + 1 && slot_of(other) != front + 3) by {
            if slot_of(other) == front + 1 {
                assert(first.contains(slot_of(other)));
            }
            if slot_of(other) == front + 3 {
                assert(second.contains(slot_of(other)));
            }
        }
        assert(s1.translate_from(root, other) == s0.translate_from(root, other));
    }
}

/// Initializes kernel's Interrupt Descriptor Table.
///
/// Sets up the kernel's table of handlers, a stack of one page for the
/// double-fault handler and one for the machine-check handler, whose tops
/// go into the first and the second place of the interrupt stack table.
///
/// The memory subsystem must be able to hand out two stacks of one page:
/// their pages must be free, and the allocator of frames must hold a frame
/// for each of them and one for each table that is missing on the ways to
/// them.
pub fn init(memory: &mut MemorySystem) -> (r: InterruptTables)
    requires
        old(memory).wf(),
        old(memory).stack_allocator.front() + 3 <= old(memory).stack_allocator.back(),
        forall|q: nat|
            handler_stack_pages(old(memory).stack_allocator.front()).contains(q) ==> #[trigger] old(memory).active_table@.path_clear(old(memory).active_table.root(), q),
        old(memory).frame_alloc.free_frames().len() >= old(memory).active_table@.missing_for(
            old(memory).active_table.root(),
            handler_stack_pages(old(memory).stack_allocator.front()),
        ).len() + 2,
        old(memory).active_table@.pool_fresh(old(memory).frame_alloc.free_frames()),
    ensures
        final(memory).wf(),
        r.idt@.len() == 256,
        forall|v: int| 0 <= v < 256 ==> #[trigger] r.idt@[v] == initial_entry(v),
        r.tss.interrupt_stack_table[0] == (old(memory).stack_allocator.front() + 2) * 4096,
        r.tss.interrupt_stack_table[1] == (old(memory).stack_allocator.front() + 4) * 4096,
        forall|i: int| 2 <= i < 7 ==> r.tss.interrupt_stack_table[i] == 0,
        final(memory).stack_allocator.front() == old(memory).stack_allocator.front() + 4,
        final(memory).stack_allocator.back() == old(memory).stack_allocator.back(),
        handler_stacks_mapped(
            final(memory).active_table@,
            old(memory).active_table@,
            old(memory).stack_allocator.front(),
            old(memory).frame_alloc.free_frames(),
            final(memory).frame_alloc.free_frames(),
        ),
        final(memory).active_table@.grew_for(
            old(memory).active_table@,
            old(memory).active_table.root(),
            handler_stack_pages(old(memory).stack_allocator.front()),
        ),
        final(memory).active_table@.pool_fresh(final(memory).frame_alloc.free_frames()),
        final(memory).frame_alloc.free_frames().len() + old(memory).active_table@.missing_for(
            old(memory).active_table.root(),
            handler_stack_pages(old(memory).stack_allocator.front()),
        ).len() + 2 == old(memory).frame_alloc.free_frames().len(),
{
    let idt = create_idt();
    let ghost s0 = memory.active_table@;
    let ghost root = memory.active_table.root();
    let ghost front = memory.stack_allocator.front();
    let ghost pool0 = memory.frame_alloc.free_frames();
    let ghost first = page_range(front + 1, front + 1);
    let ghost second = page_range(front + 3, front + 3);
    proof {
        memory.frame_alloc.lemma_free_frames_finite();
        lemma_first_stack(s0, root, front);
    }
    let double_fault_stack = memory.alloc_stack(1).unwrap();
    let ghost s1 = memory.active_table@;
    let ghost pool1 = memory.frame_alloc.free_frames();
    proof {
        lemma_second_stack(s0, s1, root, front, pool0, pool1);
    }
    let machine_check_stack = memory.alloc_stack(1).unwrap();
    proof {
        lemma_both_stacks(
            s0,
            s1,
            memory.active_table@,
            root,
            front,
            pool0,
            pool1,
            memory.frame_alloc.free_frames(),
        );
    }
    let tss = TaskStateSegment {
        interrupt_stack_table: [
            double_fault_stack.top(),
            machine_check_stack.top(),
            0,
            0,
            0,
            0,
            0,
        ],
    };
    InterruptTables { idt, tss }
}

} // verus!
