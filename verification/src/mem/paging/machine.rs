//! The machine that the paging code runs on: the physical frames that hold
//! page tables, and the register that names the active level-4 table.
//!
//! Memory is reached the way the processor reaches it: a virtual address is
//! resolved by walking the four table levels from the active level-4 table.

use vstd::prelude::*;

use super::entry::{
    lemma_raw_entry,
    lemma_raw_frame_bounded,
    raw_frame,
    raw_huge,
    raw_present,
    ENTRY_ADDR_MASK,
    ENTRY_FRAME_LIMIT,
};
use super::hierarchy::{lemma_lone_root, lemma_table_flags};
use super::page::{p1_index_of, p2_index_of, p3_index_of, p4_index_of};
use super::{number_of, FRAME_LIMIT, PAGE_SIZE};

verus! {

/// Number of entries of a page table.
pub const ENTRY_COUNT: usize = 512;

/// Number of frames that a 2 MiB page spans.
pub const FRAMES_PER_2M: u64 = 512;

/// Number of frames that a 1 GiB page spans.
pub const FRAMES_PER_1G: u64 = 0x4_0000;

/// A request to drop cached translations.
#[derive(Clone, Copy, Debug, PartialEq, Eq, Structural)]
pub enum TlbFlush {
    /// Drop the translation of the page that holds the virtual address.
    Address(u64),
    /// Drop all translations.
    All,
}

/// The state of the machine as a mathematical value.
pub struct MachineState {
    /// Physical memory: for each frame its 512 words of 64 bits.
    pub mem: Seq<Seq<u64>>,
    /// Number of the frame that holds the active level-4 table.
    pub cr3: nat,
    /// The requests to drop cached translations that were made so far.
    pub flushes: Seq<TlbFlush>,
}

impl MachineState {
    /// Number of frames of physical memory.
    pub open spec fn frames(self) -> nat {
        self.mem.len()
    }

    /// Every frame has 512 words, and the frame numbers fit the address
    /// space.
    pub open spec fn wf(self) -> bool {
        &&& forall|f: int| 0 <= f < self.mem.len() ==> (#[trigger] self.mem[f]).len() == 512
        &&& self.mem.len() <= FRAME_LIMIT
        &&& self.cr3 < FRAME_LIMIT
    }

    /// The word at the given index of the given frame.
    pub open spec fn word(self, frame: nat, index: nat) -> u64 {
        self.mem[frame as int][index as int]
    }

    /// The state after one word has been written.
    pub open spec fn write(self, frame: nat, index: nat, value: u64) -> MachineState {
        MachineState {
            mem: self.mem.update(frame as int, self.mem[frame as int].update(index as int, value)),
            ..self
        }
    }

    /// The state after every word of one frame has been set to zero.
    pub open spec fn clear_frame(self, frame: nat) -> MachineState {
        MachineState {
            mem: self.mem.update(frame as int, Seq::new(512, |i: int| 0u64)),
            ..self
        }
    }

    /// The state after the register has been loaded with another table.
    pub open spec fn load_cr3(self, frame: nat) -> MachineState {
        MachineState { cr3: frame, ..self }
    }

    /// The state after a request to drop cached translations.
    pub open spec fn flush(self, request: TlbFlush) -> MachineState {
        MachineState { flushes: self.flushes.push(request), ..self }
    }

    /// The table that the entry at `index` of `table` leads to: the entry
    /// must be present and must not map a huge page.
    pub open spec fn child(self, table: nat, index: nat) -> Option<nat> {
        if table < self.frames() && raw_present(self.word(table, index)) && !raw_huge(
            self.word(table, index),
        ) {
            Some(raw_frame(self.word(table, index)))
        } else {
            None
        }
    }

    /// The frame that the page with the given number is mapped to when the
    /// walk starts at the level-4 table in frame `root`. Huge pages of 1 GiB
    /// and of 2 MiB are followed when their first frame is aligned.
    pub open spec fn translate_from(self, root: nat, page: nat) -> Option<nat> {
        match self.child(root, p4_index_of(page)) {
            None => None,
            Some(t3) => if t3 >= self.frames() || !raw_present(
                self.word(t3, p3_index_of(page)),
            ) {
                None
            } else if raw_huge(self.word(t3, p3_index_of(page))) {
                let start = raw_frame(self.word(t3, p3_index_of(page)));
                if start % (FRAMES_PER_1G as nat) == 0 {
                    Some((start + p2_index_of(page) * 512 + p1_index_of(page)) as nat)
                } else {
                    None
                }
            } else {
                let t2 = raw_frame(self.word(t3, p3_index_of(page)));
                if t2 >= self.frames() || !raw_present(self.word(t2, p2_index_of(page))) {
                    None
                } else if raw_huge(self.word(t2, p2_index_of(page))) {
                    let start = raw_frame(self.word(t2, p2_index_of(page)));
                    if start % (FRAMES_PER_2M as nat) == 0 {
                        Some((start + p1_index_of(page)) as nat)
                    } else {
                        None
                    }
                } else {
                    let t1 = raw_frame(self.word(t2, p2_index_of(page)));
                    if t1 < self.frames() && raw_present(self.word(t1, p1_index_of(page))) {
                        Some(raw_frame(self.word(t1, p1_index_of(page))))
                    } else {
                        None
                    }
                }
            },
        }
    }

    /// Whether the walk for the page with the given number, started at the
    /// level-4 table in frame `root`, reads a word of the given frame.
    pub open spec fn walk_reads(self, root: nat, page: nat, frame: nat) -> bool {
        ||| frame == root
        ||| match self.child(root, p4_index_of(page)) {
            None => false,
            Some(t3) => {
                ||| frame == t3
                ||| match self.child(t3, p3_index_of(page)) {
                    None => false,
                    Some(t2) => {
                        ||| frame == t2
                        ||| match self.child(t2, p2_index_of(page)) {
                            None => false,
                            Some(t1) => frame == t1,
                        }
                    },
                }
            },
        }
    }

    /// The state after the first `count` words of one frame have been set
    /// to zero.
    pub open spec fn zero_prefix(self, frame: nat, count: nat) -> MachineState {
        MachineState {
            mem: self.mem.update(
                frame as int,
                Seq::new(
                    512,
                    |i: int|
                        if i < count {
                            0u64
                        } else {
                            self.mem[frame as int][i]
                        },
                ),
            ),
            ..self
        }
    }

    /// The frame that the processor reaches for the page with the given
    /// number: the walk starts at the active level-4 table.
    pub open spec fn resolve_page(self, page: nat) -> Option<nat> {
        self.translate_from(self.cr3, page)
    }
}

/// A walk comes out the same in two states that agree on every frame that
/// the walk reads.
pub proof fn lemma_walk_stable(s: MachineState, s2: MachineState, root: nat, page: nat)
    requires
        s.wf(),
        s2.wf(),
        s2.frames() == s.frames(),
        forall|f: int|
            0 <= f < s.frames() && s.walk_reads(root, page, f as nat) ==> #[trigger] s2.mem[f]
                == s.mem[f],
    ensures
        s2.translate_from(root, page) == s.translate_from(root, page),
        forall|f: nat| s2.walk_reads(root, page, f) == s.walk_reads(root, page, f),
{
    if root < s.frames() {
        assert(s2.mem[root as int] == s.mem[root as int]);
        if s.child(root, p4_index_of(page)).is_some() {
            let t3 = s.child(root, p4_index_of(page)).unwrap();
            if t3 < s.frames() {
                assert(s2.mem[t3 as int] == s.mem[t3 as int]);
                if s.child(t3, p3_index_of(page)).is_some() {
                    let t2 = s.child(t3, p3_index_of(page)).unwrap();
                    if t2 < s.frames() {
                        assert(s2.mem[t2 as int] == s.mem[t2 as int]);
                        if s.child(t2, p2_index_of(page)).is_some() {
                            let t1 = s.child(t2, p2_index_of(page)).unwrap();
                            if t1 < s.frames() {
                                assert(s2.mem[t1 as int] == s.mem[t1 as int]);
                            }
                        }
                    }
                }
            }
        }
    }
}

/// The abstract machine: physical memory and the CR3 register.
pub struct Machine {
    memory: Vec<Vec<u64>>,
    cr3: u64,
    flushes: Vec<TlbFlush>,
}

impl View for Machine {
    type V = MachineState;

    closed spec fn view(&self) -> MachineState {
        MachineState {
            mem: Seq::new(self.memory@.len(), |f: int| self.memory@[f]@),
            cr3: self.cr3 as nat,
            flushes: self.flushes@,
        }
    }
}

impl Machine {
    /// A machine with `frame_count` frames of memory, all zero, and the
    /// register pointing to frame 0.
    pub fn new(frame_count: u64) -> (r: Machine)
        requires
            frame_count <= FRAME_LIMIT,
            frame_count <= usize::MAX,
        ensures
            r@.wf(),
            r@.frames() == frame_count,
            r@.cr3 == 0,
            r@.flushes == Seq::<TlbFlush>::empty(),
            forall|f: nat, i: nat| f < frame_count && i < 512 ==> r@.word(f, i) == 0,
    {
        let mut memory: Vec<Vec<u64>> = Vec::new();
        let mut f: u64 = 0;
        while f < frame_count
            invariant
                f <= frame_count,
                memory@.len() == f,
                forall|k: int|
                    0 <= k < f ==> (#[trigger] memory@[k])@ =~= Seq::new(512, |i: int| 0u64),
            decreases frame_count - f,
        {
            let mut table: Vec<u64> = Vec::new();
            let mut i: usize = 0;
            while i < ENTRY_COUNT
                invariant
                    i <= 512,
                    table@.len() == i,
                    forall|k: int| 0 <= k < i ==> table@[k] == 0,
                decreases 512 - i,
            {
                table.push(0);
                i = i + 1;
            }
            memory.push(table);
            f = f + 1;
        }
        Machine { memory, cr3: 0, flushes: Vec::new() }
    }

    /// A machine as the boot code leaves it, reduced to what paging needs:
    /// `frame_count` frames of memory, all zero but for the recursive entry
    /// of the level-4 table in frame `p4_frame`, which the register names.
    pub fn boot(frame_count: u64, p4_frame: u64) -> (r: Machine)
        requires
            frame_count <= FRAME_LIMIT,
            frame_count <= usize::MAX,
            p4_frame < frame_count,
            p4_frame < ENTRY_FRAME_LIMIT,
        ensures
            r@.hierarchy_ok(),
            r@.frames() == frame_count,
            r@.cr3 == p4_frame,
            r@.flushes == Seq::<TlbFlush>::empty(),
            r@.root() == Some(p4_frame as nat),
            r@.lone_root(p4_frame as nat),
            forall|x: nat| #[trigger] r@.is_table(p4_frame as nat, x) <==> x == p4_frame,
            forall|page: nat|
                p4_index_of(page) != 511 ==> #[trigger] r@.translate_from(p4_frame as nat, page)
                    == None::<nat>,
    {
        let mut machine = Machine::new(frame_count);
        let ghost zero = machine@;
        machine.set_cr3(p4_frame);
        machine.write_physical(p4_frame, 511, p4_frame * PAGE_SIZE | 0x3);
        proof {
            lemma_table_flags();
            lemma_raw_entry(p4_frame as nat, 3);
            lemma_raw_frame_bounded(0);
            let s = machine@;
            assert forall|i: nat| i < 512 && i != 511 implies !raw_present(
                #[trigger] s.word(p4_frame as nat, i),
            ) by {
                assert(zero.word(p4_frame as nat, i) == 0);
            }
            lemma_lone_root(s, p4_frame as nat);
            assert forall|i: nat| i < 512 && i != 511 implies #[trigger] s.word(p4_frame as nat, i)
                == 0 by {
                assert(zero.word(p4_frame as nat, i) == 0);
            }
        }
        machine
    }

    /// Number of frames of physical memory.
    pub fn frame_count(&self) -> (r: u64)
        requires
            self@.wf(),
        ensures
            r == self@.frames(),
    {
        self.memory.len() as u64
    }

    /// Number of the frame that the register points to.
    pub fn cr3(&self) -> (r: u64)
        ensures
            r == self@.cr3,
    {
        self.cr3
    }

    /// Loads the register with the number of another frame.
    pub fn set_cr3(&mut self, frame: u64)
        requires
            frame < FRAME_LIMIT,
            old(self)@.wf(),
        ensures
            final(self)@ == old(self)@.load_cr3(frame as nat),
            final(self)@.wf(),
    {
        self.cr3 = frame;
        proof {
            assert(self@.mem =~= old(self)@.mem);
        }
    }

    /// Drops the cached translation of the page that holds the address.
    pub fn flush_tlb(&mut self, address: u64)
        ensures
            final(self)@ == old(self)@.flush(TlbFlush::Address(address)),
    {
        self.flushes.push(TlbFlush::Address(address));
        proof {
            assert(self@.mem =~= old(self)@.mem);
        }
    }

    /// Drops all cached translations.
    pub fn flush_tlb_all(&mut self)
        ensures
            final(self)@ == old(self)@.flush(TlbFlush::All),
    {
        self.flushes.push(TlbFlush::All);
        proof {
            assert(self@.mem =~= old(self)@.mem);
        }
    }

    /// The requests to drop cached translations that were made so far.
    pub fn flushes(&self) -> (r: &Vec<TlbFlush>)
        ensures
            r@ == self@.flushes,
    {
        &self.flushes
    }

    /// Reads a word of physical memory.
    pub fn read_physical(&self, frame: u64, index: usize) -> (r: u64)
        requires
            self@.wf(),
            frame < self@.frames(),
            index < 512,
        ensures
            r == self@.word(frame as nat, index as nat),
    {
        let count: usize = self.memory.len();
        assert(self@.mem.len() == count);
        assert(self@.mem[frame as int] == self.memory@[frame as int]@);
        let f: usize = frame as usize;
        self.memory[f][index]
    }

    /// Writes a word of physical memory.
    pub fn write_physical(&mut self, frame: u64, index: usize, value: u64)
        requires
            old(self)@.wf(),
            frame < old(self)@.frames(),
            index < 512,
        ensures
            final(self)@ == old(self)@.write(frame as nat, index as nat, value),
            final(self)@.wf(),
    {
        let count: usize = self.memory.len();
        assert(self@.mem.len() == count);
        assert(self@.mem[frame as int] == self.memory@[frame as int]@);
        let f: usize = frame as usize;
        self.memory[f][index] = value;
        proof {
            let expected = old(self)@.write(frame as nat, index as nat, value);
            assert(self@.mem.len() == expected.mem.len());
            assert forall|k: int| 0
                <= k < self@.mem.len() implies self@.mem[k] =~= expected.mem[k] by {
                assert(old(self)@.mem[k] == old(self).memory@[k]@);
            }
            assert(self@.mem =~= expected.mem);
        }
    }

    /// The table that the entry at `index` of `table` leads to.
    fn child(&self, table: u64, index: usize) -> (r: Option<u64>)
        requires
            self@.wf(),
            index < 512,
        ensures
            r.is_some() == self@.child(table as nat, index as nat).is_some(),
            r.is_some() ==> r.unwrap() == self@.child(table as nat, index as nat).unwrap(),
    {
        if table >= self.frame_count() {
            return None;
        }
        let raw: u64 = self.read_physical(table, index);
        if raw & 0x1 == 0x1 && raw & 0x80 != 0x80 {
            Some((raw & ENTRY_ADDR_MASK) / PAGE_SIZE)
        } else {
            None
        }
    }

    /// Walks the tables from the level-4 table in frame `root` to the frame
    /// that the page with the given number is mapped to.
    pub fn translate_from(&self, root: u64, page: u64) -> (r: Option<u64>)
        requires
            self@.wf(),
        ensures
            r.is_some() == self@.translate_from(root as nat, page as nat).is_some(),
            r.is_some() ==> r.unwrap() == self@.translate_from(root as nat, page as nat).unwrap(),
    {
        let i4: usize = ((page / 0x800_0000) % 512) as usize;
        let i3: usize = ((page / 0x4_0000) % 512) as usize;
        let i2: usize = ((page / 512) % 512) as usize;
        let i1: usize = (page % 512) as usize;
        let count: u64 = self.frame_count();
        let t3: u64 = match self.child(root, i4) {
            Some(t3) => t3,
            None => {
                return None;
            },
        };
        if t3 >= count {
            return None;
        }
        let e3: u64 = self.read_physical(t3, i3);
        proof {
            lemma_raw_frame_bounded(e3);
        }
        if e3 & 0x1 != 0x1 {
            return None;
        }
        let f3: u64 = (e3 & ENTRY_ADDR_MASK) / PAGE_SIZE;
        if e3 & 0x80 == 0x80 {
            if f3 % FRAMES_PER_1G == 0 {
                return Some(f3 + (i2 as u64) * 512 + (i1 as u64));
            }
            return None;
        }
        if f3 >= count {
            return None;
        }
        let e2: u64 = self.read_physical(f3, i2);
        proof {
            lemma_raw_frame_bounded(e2);
        }
        if e2 & 0x1 != 0x1 {
            return None;
        }
        let f2: u64 = (e2 & ENTRY_ADDR_MASK) / PAGE_SIZE;
        if e2 & 0x80 == 0x80 {
            if f2 % FRAMES_PER_2M == 0 {
                return Some(f2 + (i1 as u64));
            }
            return None;
        }
        if f2 >= count {
            return None;
        }
        let e1: u64 = self.read_physical(f2, i1);
        if e1 & 0x1 == 0x1 {
            Some((e1 & ENTRY_ADDR_MASK) / PAGE_SIZE)
        } else {
            None
        }
    }

    /// The frame that the processor reaches for the page with the given
    /// number, or `None` where the access would fault.
    pub fn resolve_page(&self, page: u64) -> (r: Option<u64>)
        requires
            self@.wf(),
        ensures
            r.is_some() == self@.resolve_page(page as nat).is_some(),
            r.is_some() ==> r.unwrap() == self@.resolve_page(page as nat).unwrap(),
    {
        self.translate_from(self.cr3, page)
    }

    /// Whether a word can be read and written at the virtual address: the
    /// address is a multiple of 8 and resolves to a frame of physical memory.
    pub open spec fn accessible(state: MachineState, address: u64) -> bool {
        &&& address % 8 == 0
        &&& state.resolve_page(number_of(address)).is_some()
        &&& state.resolve_page(number_of(address)).unwrap() < state.frames()
    }

    /// Reads the word at a virtual address.
    pub fn read(&self, address: u64) -> (r: u64)
        requires
            self@.wf(),
            Self::accessible(self@, address),
        ensures
            r == self@.word(
                self@.resolve_page(number_of(address)).unwrap(),
                ((address % 4096) / 8) as nat,
            ),
    {
        let frame: u64 = self.resolve_page(address / PAGE_SIZE).unwrap();
        self.read_physical(frame, ((address % PAGE_SIZE) / 8) as usize)
    }

    /// Writes the word at a virtual address.
    pub fn write(&mut self, address: u64, value: u64)
        requires
            old(self)@.wf(),
            Self::accessible(old(self)@, address),
        ensures
            final(self)@ == old(self)@.write(
                old(self)@.resolve_page(number_of(address)).unwrap(),
                ((address % 4096) / 8) as nat,
                value,
            ),
            final(self)@.wf(),
    {
        let frame: u64 = self.resolve_page(address / PAGE_SIZE).unwrap();
        self.write_physical(frame, ((address % PAGE_SIZE) / 8) as usize, value)
    }
}

} // verus!
