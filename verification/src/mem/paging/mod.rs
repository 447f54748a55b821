//! Paging: frames, pages, page tables and the mapper that edits them.

use vstd::prelude::*;

pub mod active_page_table;
pub mod demand;
pub mod entry;
pub mod frame;
pub mod frame_alloc;
pub mod hierarchy;
pub mod inactive_page_table;
pub mod machine;
pub mod map_range;
pub mod mapper;
pub mod page;
pub mod page_table;
pub mod remap;
pub mod tmp_page;

pub use self::active_page_table::ActivePageTable;
pub use self::entry::{make_address_canonical, Entry, EntryFlags};
pub use self::frame::Frame;
pub use self::frame_alloc::{CoreFrameAlloc, FrameAlloc};
pub use self::inactive_page_table::InactivePageTable;
pub use self::machine::{Machine, MachineState, TlbFlush, ENTRY_COUNT};
pub use self::mapper::Mapper;
pub use self::page_table::{HierarchicalLevel, PageTable, TableLevel, L1, L2, L3, L4};
pub use self::tmp_page::TmpPage;
pub use self::frame::FrameIter;
pub use self::page::Page;
pub use self::page::PageIter;

verus! {

pub type VirtualAddress = u64;

pub type PhysicalAddress = u64;

/// Size of a page and of a frame, in bytes.
pub const PAGE_SIZE: u64 = 4096;

/// Number of frames (and of pages) that a 64-bit address space holds.
pub const FRAME_LIMIT: u64 = 0x0010_0000_0000_0000;

/// An address is canonical when bits 48 to 63 repeat bit 47.
pub open spec fn is_canonical(address: u64) -> bool {
    address < 0x0000_8000_0000_0000 || address >= 0xffff_8000_0000_0000
}

/// Number of the frame (or page) that holds `address`.
pub open spec fn number_of(address: u64) -> nat {
    (address / PAGE_SIZE) as nat
}

/// First address of the frame (or page) with the given number.
pub open spec fn start_of(number: nat) -> nat {
    number * (PAGE_SIZE as nat)
}

/// First address after the frame (or page) with the given number.
pub open spec fn end_of(number: nat) -> nat {
    (number + 1) * (PAGE_SIZE as nat)
}

/// The frame that holds an address starts at that address rounded down to a
/// multiple of the page size.
pub proof fn lemma_frame_start_rounds_down(address: u64)
    ensures
        start_of(number_of(address)) == (address / 4096) * 4096,
        number_of(address) < FRAME_LIMIT,
{
}

/// An address lies in the page that holds it: at or after the page's start
/// and before its end.
pub proof fn lemma_page_contains_address(address: u64)
    ensures
        start_of(number_of(address)) <= address < end_of(number_of(address)),
{
}

} // verus!
