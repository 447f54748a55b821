//! Page tables
//!
//! A `PageTable` is a token for the table that the machine shows at a virtual
//! address. The tables of the active hierarchy are shown in the recursive
//! window; the token of a table leads to the tokens of the tables below it.

use std::marker::PhantomData;
use vstd::prelude::*;

use super::entry::{canonical_of, make_address_canonical, raw_entry, Entry, EntryFlags};
use super::frame_alloc::FrameAlloc;
use super::hierarchy::{
    lemma_link_table, lemma_table_in_memory, lemma_table_flags, lemma_token_page_indices, lemma_token_resolves,
    lemma_with_table, TablePath,
};
use super::entry::raw_present;
use super::entry::raw_huge;
use super::machine::{lemma_walk_stable, Machine, MachineState, ENTRY_COUNT};
use super::number_of;

verus! {

/// The address under which the recursive entry shows the level-4 table.
pub const P4_ADDRESS: u64 = 0xffff_ffff_ffff_f000;

/// The level of a page table.
pub trait TableLevel {
    /// Number of entries that lead from the level-4 table to a table of this
    /// level.
    spec fn depth() -> nat;
}

/// Level of the page-map level-4 table.
pub enum L4 {
    Level,
}

/// Level of the page-directory-pointer tables.
pub enum L3 {
    Level,
}

/// Level of the page directories.
pub enum L2 {
    Level,
}

/// Level of the tables whose entries map pages.
pub enum L1 {
    Level,
}

impl TableLevel for L4 {
    open spec fn depth() -> nat {
        0
    }
}

impl TableLevel for L3 {
    open spec fn depth() -> nat {
        1
    }
}

impl TableLevel for L2 {
    open spec fn depth() -> nat {
        2
    }
}

impl TableLevel for L1 {
    open spec fn depth() -> nat {
        3
    }
}

/// A level whose tables have tables below them.
pub trait HierarchicalLevel: TableLevel {
    type NextLevel: TableLevel;

    /// The next level lies one entry deeper, and no deeper than level 1.
    proof fn lemma_next_level()
        ensures
            Self::depth() < 3,
            Self::NextLevel::depth() == Self::depth() + 1,
    ;
}

impl HierarchicalLevel for L4 {
    type NextLevel = L3;

    proof fn lemma_next_level() {
    }
}

impl HierarchicalLevel for L3 {
    type NextLevel = L2;

    proof fn lemma_next_level() {
    }
}

impl HierarchicalLevel for L2 {
    type NextLevel = L1;

    proof fn lemma_next_level() {
    }
}

/// Single page table
pub struct PageTable<L: TableLevel> {
    address: u64,
    path: Ghost<TablePath>,
    level: PhantomData<L>,
}

/// The address of the table below the table at `address`, behind the entry
/// at `index`, as the recursive window shows it.
pub open spec fn next_table_address_of(address: u64, index: u64) -> u64 {
    canonical_of((address << 9) | (index << 12))
}

proof fn lemma_next_table_address(address: u64, index: u64)
    by (bit_vector)
    requires
        address % 4096u64 == 0,
        address / 4096u64 >= 0xf_ffff_fffc_0000u64,
        index < 512,
    ensures
        next_table_address_of(address, index) == (0xf_ffff_f800_0000u64 + ((address / 4096u64)
            % 0x4_0000u64) * 512u64 + index) * 4096u64,
{
}

impl<L: TableLevel> PageTable<L> {
    /// The virtual address of the table.
    pub closed spec fn address(&self) -> u64 {
        self.address
    }

    /// The way from the level-4 table to this table, for a table of the
    /// recursive window.
    pub closed spec fn path(&self) -> TablePath {
        self.path@
    }

    /// The token names a table of the recursive window, at the depth of its
    /// level.
    pub open spec fn wf(&self) -> bool {
        &&& self.path().ok()
        &&& self.path().depth == L::depth()
        &&& self.address() == self.path().token_page() * 4096
    }

    /// The frame that the machine shows at the token's address.
    pub open spec fn frame_in(&self, state: MachineState) -> Option<nat> {
        state.resolve_page(number_of(self.address()))
    }

    /// The machine shows a frame of physical memory at the token's address.
    pub open spec fn usable(&self, state: MachineState) -> bool {
        &&& state.wf()
        &&& self.address() % 4096 == 0
        &&& self.frame_in(state).is_some()
        &&& self.frame_in(state).unwrap() < state.frames()
    }

    /// The token for the table that is shown at a page-aligned address.
    /// Such a token leads to no tables below it.
    pub fn at(address: u64) -> (r: Self)
        requires
            address % 4096 == 0,
        ensures
            r.address() == address,
    {
        PageTable { address, path: Ghost(TablePath::root()), level: PhantomData }
    }

    /// The virtual address of the table.
    pub fn start_address(&self) -> (r: u64)
        ensures
            r == self.address(),
    {
        self.address
    }

    /// Reads the entry at `index`.
    pub fn entry(&self, machine: &Machine, index: usize) -> (r: Entry)
        requires
            self.usable(machine@),
            index < 512,
        ensures
            r.0 == machine@.word(self.frame_in(machine@).unwrap(), index as nat),
    {
        let address: u64 = self.address + (index as u64) * 8;
        assert(number_of(address) == number_of(self.address));
        Entry(machine.read(address))
    }

    /// Writes the entry at `index`.
    pub fn set_entry(&self, machine: &mut Machine, index: usize, entry: Entry)
        requires
            self.usable(old(machine)@),
            index < 512,
        ensures
            final(machine)@ == old(machine)@.write(
                self.frame_in(old(machine)@).unwrap(),
                index as nat,
                entry.0,
            ),
            final(machine)@.wf(),
    {
        let address: u64 = self.address + (index as u64) * 8;
        assert(number_of(address) == number_of(self.address));
        machine.write(address, entry.0)
    }
}

impl<L: TableLevel> PageTable<L> {
    /// Sets every entry of the table to unused. The table must not be one of
    /// those that the processor reads on its way to this table.
    pub fn clear(&self, machine: &mut Machine)
        requires
            self.usable(old(machine)@),
            !old(machine)@.walk_reads(
                old(machine)@.cr3,
                number_of(self.address()),
                self.frame_in(old(machine)@).unwrap(),
            ),
        ensures
            final(machine)@ == old(machine)@.clear_frame(self.frame_in(old(machine)@).unwrap()),
            final(machine)@.wf(),
    {
        let ghost start = machine@;
        let ghost frame = self.frame_in(start).unwrap();
        let ghost page = number_of(self.address());
        let mut index: usize = 0;
        proof {
            assert(start.zero_prefix(frame, 0).mem =~~= start.mem);
        }
        while index < ENTRY_COUNT
            invariant
                index <= 512,
                start.wf(),
                frame < start.frames(),
                page == number_of(self.address()),
                machine@ == start.zero_prefix(frame, index as nat),
                self.usable(machine@),
                self.frame_in(machine@) == Some(frame),
                !machine@.walk_reads(machine@.cr3, page, frame),
            decreases 512 - index,
        {
            let ghost before = machine@;
            let mut entry = self.entry(machine, index);
            entry.set_unused();
            self.set_entry(machine, index, entry);
            proof {
                assert(machine@.mem =~~= start.zero_prefix(frame, (index + 1) as nat).mem);
                lemma_walk_stable(before, machine@, before.cr3, page);
            }
            index = index + 1;
        }
        proof {
            assert(machine@.mem =~~= start.clear_frame(frame).mem);
        }
    }
}

impl PageTable<L4> {
    /// The level-4 table, as the recursive window shows it.
    pub fn recursive_root() -> (r: Self)
        ensures
            r.wf(),
            r.path() == TablePath::root(),
            r.address() == P4_ADDRESS,
    {
        PageTable { address: P4_ADDRESS, path: Ghost(TablePath::root()), level: PhantomData }
    }
}

impl<L: HierarchicalLevel> PageTable<L> {
    /// The address of the table behind the entry at `index`, if the entry is
    /// present and maps no huge page.
    pub fn next_table_address(&self, machine: &Machine, index: usize) -> (r: Option<u64>)
        requires
            self.usable(machine@),
            index < 512,
        ensures
            r.is_some() == machine@.child(self.frame_in(machine@).unwrap(), index as nat).is_some(),
            r.is_some() ==> r.unwrap() == next_table_address_of(self.address(), index as u64),
    {
        let entry_flags = self.entry(machine, index).flags();
        if entry_flags.has(EntryFlags::PRESENT) && !entry_flags.has(EntryFlags::HUGE_PAGE) {
            let table_address: u64 = self.address;
            Some(make_address_canonical((table_address << 9) | ((index as u64) << 12)))
        } else {
            None
        }
    }

    /// The table behind the entry at `index`, if the entry is present and
    /// maps no huge page.
    pub fn next_table(&self, machine: &Machine, index: usize) -> (r: Option<
        PageTable<L::NextLevel>,
    >)
        requires
            self.wf(),
            machine@.recursive(),
            machine@.table_at(machine@.root().unwrap(), self.path()).is_some(),
            machine@.table_at(machine@.root().unwrap(), self.path()).unwrap() < machine@.frames(),
            index < 512,
        ensures
            r.is_some() == machine@.table_at(
                machine@.root().unwrap(),
                self.path().push(index as nat),
            ).is_some(),
            r.is_some() ==> r.unwrap().wf() && r.unwrap().path() == self.path().push(index as nat),
    {
        proof {
            L::lemma_next_level();
            lemma_token_page_indices(self.path());
            lemma_token_resolves(machine@, self.path());
            lemma_next_table_address(self.address, index as u64);
        }
        match self.next_table_address(machine, index) {
            Some(address) => Some(
                PageTable {
                    address,
                    path: Ghost(self.path@.push(index as nat)),
                    level: PhantomData,
                },
            ),
            None => None,
        }
    }

    /// The table behind the entry at `index`. Where the entry is absent, a
    /// frame is taken from the allocator, linked with the flags PRESENT and
    /// WRITABLE, and cleared. The entry must not map a huge page, and the
    /// allocator must not be exhausted when a frame is needed.
    pub fn next_table_create<A: FrameAlloc>(
        &self,
        machine: &mut Machine,
        index: usize,
        allocator: &mut A,
    ) -> (r: PageTable<L::NextLevel>)
        requires
            self.wf(),
            index < 512,
            old(machine)@.hierarchy_ok(),
            self.path().push(index as nat).proper(),
            old(machine)@.table_at(old(machine)@.root().unwrap(), self.path()).is_some(),
            !raw_huge(
                old(machine)@.word(
                    old(machine)@.table_at(old(machine)@.root().unwrap(), self.path()).unwrap(),
                    index as nat,
                ),
            ),
            old(allocator).wf(),
            !raw_present(
                old(machine)@.word(
                    old(machine)@.table_at(old(machine)@.root().unwrap(), self.path()).unwrap(),
                    index as nat,
                ),
            ) ==> old(allocator).free_frames().len() > 0 && old(machine)@.pool_fresh(
                old(allocator).free_frames(),
            ),
        ensures
            r.wf(),
            r.path() == self.path().push(index as nat),
            final(allocator).wf(),
            forall|f: nat| old(allocator).accepts(f) ==> #[trigger] final(allocator).accepts(f),
            final(machine)@.hierarchy_ok(),
            final(machine)@.root() == old(machine)@.root(),
            final(machine)@.flushes == old(machine)@.flushes,
            final(machine)@.table_at(final(machine)@.root().unwrap(), r.path()).is_some(),
            ({
                let s = old(machine)@;
                let root = s.root().unwrap();
                let parent = s.table_at(root, self.path()).unwrap();
                let table = final(machine)@.table_at(root, r.path()).unwrap();
                if raw_present(s.word(parent, index as nat)) {
                    &&& final(machine)@ == s
                    &&& *final(allocator) == *old(allocator)
                } else {
                    &&& old(allocator).free_frames().contains(table)
                    &&& final(allocator).free_frames() == old(allocator).free_frames().remove(table)
                    &&& final(machine)@ == s.with_table(parent, index as nat, table)
                }
            }),
    {
        let ghost s = machine@;
        let ghost root = s.root().unwrap();
        let ghost parent = s.table_at(root, self.path()).unwrap();
        proof {
            L::lemma_next_level();
            assert(self.path().proper());
            assert(s.is_table(root, parent));
            lemma_table_in_memory(s, root, self.path());
            lemma_token_page_indices(self.path());
            lemma_token_resolves(s, self.path());
            assert(s.table_at(root, self.path().push(index as nat)) == s.child(
                parent,
                index as nat,
            ));
        }
        if self.next_table(machine, index).is_none() {
            assert(!raw_present(s.word(parent, index as nat)));
            let frame = allocator.alloc_frame().unwrap();
            let ghost table = frame@;
            let ghost link = raw_entry(table, EntryFlags::PRESENT | EntryFlags::WRITABLE);
            proof {
                lemma_table_flags();
                lemma_link_table(s, self.path(), index as nat, table);
            }
            let mut entry = self.entry(machine, index);
            entry.set(
                frame,
                EntryFlags::from_bits_truncate(EntryFlags::PRESENT | EntryFlags::WRITABLE),
            );
            assert(entry.0 == link);
            self.set_entry(machine, index, entry);
            assert(machine@ == s.write(parent, index as nat, link));
            proof {
                lemma_token_page_indices(self.path().push(index as nat));
            }
            let next = self.next_table(machine, index).unwrap();
            assert(number_of(next.address()) == self.path().push(index as nat).token_page());
            next.clear(machine);
            assert(machine@ == s.with_table(parent, index as nat, table));
            proof {
                lemma_with_table(s, self.path(), index as nat, table);
            }
        }
        proof {
            lemma_table_in_memory(machine@, root, self.path());
        }
        self.next_table(machine, index).unwrap()
    }
}

} // verus!
