//! The active hierarchy of page tables: the one whose level-4 table the
//! machine's register names.

use vstd::prelude::*;

use super::entry::{lemma_raw_frame_bounded, Entry, EntryFlags, ENTRY_FRAME_LIMIT};
use super::frame::Frame;
use super::frame_alloc::FrameAlloc;
use super::hierarchy::{
    lemma_grown_by_flush, lemma_grown_by_leaf, lemma_grown_further, lemma_grown_means,
    lemma_redirect, lemma_restore, lemma_same_hierarchy_further, lemma_same_hierarchy_means,
    lemma_switch, lemma_table_flags, lemma_table_in_memory, lemma_token_page_indices,
    lemma_token_resolves, TablePath,
};
use super::inactive_page_table::InactivePageTable;
use super::machine::{Machine, MachineState, TlbFlush};
use super::mapper::Mapper;
use super::page::{p1_index_of, p4_index_of};
use super::page_table::{PageTable, L1};
use super::start_of;
use super::tmp_page::TmpPage;

verus! {

/// What is kept while the recursive window shows another hierarchy than
/// the active one: the recursive entry of the active level-4 table as it
/// was, and the table under which the temporary page shows that table.
pub struct Redirect {
    backup: Entry,
    p4_table: PageTable<L1>,
    before: Ghost<MachineState>,
    target: Ghost<nat>,
    page: Ghost<nat>,
}

impl Redirect {
    /// The state in which the recursive window was pointed elsewhere.
    pub closed spec fn before(&self) -> MachineState {
        self.before@
    }

    /// Number of the frame of the level-4 table that the window shows.
    pub closed spec fn target(&self) -> nat {
        self.target@
    }

    /// The state right after the recursive window was pointed elsewhere.
    pub open spec fn entered(&self) -> MachineState {
        self.before().redirect(self.target())
    }

    /// Number of the temporary page that shows the active level-4 table.
    pub closed spec fn page(&self) -> nat {
        self.page@
    }

    /// The active hierarchy is right after the recursive window was pointed
    /// elsewhere what it was before.
    pub proof fn lemma_entered(&self)
        requires
            self.wf(),
        ensures
            self.entered().same_hierarchy(self.before(), self.before().cr3),
            self.before().hierarchy_ok(),
            self.before().root() == Some(self.before().cr3),
    {
        let before = self.before();
        let entered = self.entered();
        let active = before.cr3;
        assert(before.is_table(active, active)) by {
            assert(TablePath::root().proper());
            assert(before.table_at(active, TablePath::root()) == Some(active));
        }
        lemma_table_flags();
        assert(entered.wf());
        assert forall|f: int| 0 <= f < before.frames()
            && f != active implies #[trigger] entered.mem[f]
            == before.mem[f] by {}
        assert forall|i: int| 0 <= i < 512 && i != 511 implies entered.mem[active as int][i]
            == before.mem[active as int][i] by {}
        super::hierarchy::lemma_same_hierarchy(before, entered, active);
    }

    /// What is kept fits together: the entry is the recursive entry of the
    /// active level-4 table, and the temporary page showed that table.
    pub closed spec fn wf(&self) -> bool {
        let before = self.before@;
        &&& before.hierarchy_ok()
        &&& before.root() == Some(before.cr3)
        &&& self.backup.0 == before.word(before.cr3, 511)
        &&& self.p4_table.address() == start_of(self.page@)
        &&& p4_index_of(self.page@) != 511
        &&& before.translate_from(before.cr3, self.page@) == Some(before.cr3)
        &&& before.mapped_small(self.page@)
        &&& before.redirect(self.target@).root() == Some(self.target@)
    }
}

/// The hierarchy of page tables that the machine translates with, and the
/// machine itself.
pub struct ActivePageTable {
    mapper: Mapper,
}

impl View for ActivePageTable {
    type V = MachineState;

    closed spec fn view(&self) -> MachineState {
        self.mapper@
    }
}

impl ActivePageTable {
    /// The hierarchy is in order, and it is the one that the register names.
    pub open spec fn wf(&self) -> bool {
        &&& self@.hierarchy_ok()
        &&& self@.root() == Some(self@.cr3)
    }

    /// Number of the frame that holds the level-4 table.
    pub open spec fn root(&self) -> nat {
        self@.root().unwrap()
    }

    /// The frame that the page with the given number is mapped to.
    pub open spec fn translation(&self, page: nat) -> Option<nat> {
        self@.translate_from(self.root(), page)
    }

    /// The level-1 entry of the page with the given number, where the tables
    /// down to level 1 exist.
    pub open spec fn leaf(&self, page: nat) -> Option<u64> {
        self@.leaf(self.root(), page)
    }

    /// The active hierarchy of the machine.
    pub fn new(machine: Machine) -> (r: ActivePageTable)
        requires
            machine@.hierarchy_ok(),
            machine@.root() == Some(machine@.cr3),
        ensures
            r@ == machine@,
            r.wf(),
    {
        ActivePageTable { mapper: Mapper::new(machine) }
    }

    /// The mapper that edits the hierarchy.
    pub fn mapper(&self) -> (r: &Mapper)
        ensures
            r@ == self@,
    {
        &self.mapper
    }

    /// The mapper that edits the hierarchy.
    pub fn mapper_mut(&mut self) -> (r: &mut Mapper)
        ensures
            r@ == old(self)@,
            final(self)@ == final(r)@,
    {
        &mut self.mapper
    }

    /// Gives the machine back.
    pub fn into_machine(self) -> (r: Machine)
        ensures
            r@ == self@,
    {
        self.mapper.into_machine()
    }

    /// Points the recursive window to the hierarchy of `table`: from now
    /// on, and until `with_end`, the mapper edits that hierarchy, while the
    /// machine goes on translating with the active one. The active level-4
    /// table stays at hand under the temporary page.
    ///
    /// The two hierarchies must have no table in common, and the temporary
    /// page must be ready to be mapped.
    pub fn with_begin(&mut self, table: &InactivePageTable, tmp_page: &mut TmpPage) -> (r:
        Redirect)
        requires
            old(self).wf(),
            old(tmp_page).wf(),
            old(self)@.tree(table.p4_frame@),
            table.p4_frame@ < ENTRY_FRAME_LIMIT,
            table.p4_frame@ != old(self)@.cr3,
            forall|x: nat| #[trigger]
                old(self)@.is_table(table.p4_frame@, x) ==> !old(self)@.is_table(
                    old(self).root(),
                    x,
                ) && (old(self)@.missing_tables(old(self).root(), old(tmp_page).page()) > 0
                    ==> !old(tmp_page).reserve().contains(x)),
            old(self)@.can_map(old(tmp_page).page(), old(tmp_page).reserve()),
        ensures
            r.wf(),
            r.target() == table.p4_frame@,
            r.page() == old(tmp_page).page(),
            final(self)@ == r.entered(),
            final(self)@.redirected_since(r.entered()),
            final(self)@.root() == Some(table.p4_frame@),
            final(self)@.cr3 == old(self)@.cr3,
            final(self)@.frames() == old(self)@.frames(),
            final(self)@.flushes == old(self)@.flushes.push(TlbFlush::All),
            final(self)@.same_hierarchy(old(self)@, table.p4_frame@),
            r.before().grown_from(
                old(self)@,
                old(tmp_page).page(),
                old(tmp_page).reserve(),
                final(tmp_page).reserve(),
            ),
            final(tmp_page).wf(),
            final(tmp_page).page() == old(tmp_page).page(),
            old(self)@.missing_tables(old(self).root(), old(tmp_page).page()) == 0
                ==> final(tmp_page).reserve() == old(tmp_page).reserve(),
            old(self)@.missing_tables(old(self).root(), old(tmp_page).page()) > 0
                ==> final(tmp_page).reserve().len() < old(tmp_page).reserve().len(),
    {
        let ghost s0 = self@;
        let ghost active = self.root();
        let ghost target = table.p4_frame@;
        let ghost page = tmp_page.page();
        let ghost reserve0 = tmp_page.reserve();
        let p4 = self.mapper.p4();
        proof {
            lemma_table_in_memory(s0, active, TablePath::root());
            lemma_token_page_indices(TablePath::root());
            lemma_token_resolves(s0, TablePath::root());
        }
        // Backup current recursive mapping
        let old_rec = p4.entry(self.mapper.machine(), 511);
        // Map temporary_page to current P4 table
        let p4_table = tmp_page.map_table_frame(old_rec.pointed_frame().unwrap(), self);
        let ghost s1 = self@;
        proof {
            lemma_grown_means(s1, s0, page, reserve0, tmp_page.reserve());
            if s0.missing_tables(active, page) == 0 {
                lemma_grown_means(s1, s0, page, Set::empty(), Set::empty());
            }
            assert(s1.tree(target) && s1.same_hierarchy(s0, target)) by {
                assert forall|f: int|
                    0 <= f < s0.frames()
                        && s0.is_table(target, f as nat) implies #[trigger] s1.mem[f]
                    == s0.mem[f] by {}
                assert(s0.is_table(target, target)) by {
                    assert(TablePath::root().proper());
                    assert(s0.table_at(target, TablePath::root()) == Some(target));
                }
                super::hierarchy::lemma_same_hierarchy(s0, s1, target);
            }
            assert forall|x: nat| #[trigger] s1.is_table(target, x) implies !s1.is_table(
                s1.cr3,
                x,
            ) by {
                lemma_same_hierarchy_means(s1, s0, target);
            }
            lemma_redirect(s1, target);
            lemma_same_hierarchy_further(s0, s1, s1.redirect(target), target);
            lemma_table_in_memory(s1, active, TablePath::root());
            lemma_token_resolves(s1, TablePath::root());
            lemma_table_flags();
        }
        // overwrite recursive mapping
        let mut entry = p4.entry(self.mapper.machine(), 511);
        entry.set(
            table.p4_frame.clone(),
            EntryFlags::from_bits_truncate(EntryFlags::PRESENT | EntryFlags::WRITABLE),
        );
        p4.set_entry(self.mapper.machine_mut(), 511, entry);
        self.mapper.machine_mut().flush_tlb_all();
        Redirect {
            backup: old_rec,
            p4_table,
            before: Ghost(s1),
            target: Ghost(target),
            page: Ghost(page),
        }
    }

    /// Points the recursive window back to the active hierarchy and unmaps
    /// the temporary page.
    ///
    /// The active hierarchy must have been left alone since `with_begin`,
    /// and the temporary page must have room to take back the frame of the
    /// active level-4 table.
    pub fn with_end(&mut self, tmp_page: &mut TmpPage, redirect: Redirect)
        requires
            redirect.wf(),
            old(self)@.redirected_since(redirect.entered()),
            old(tmp_page).wf(),
            old(tmp_page).page() == redirect.page(),
            old(tmp_page).accepts(old(self)@.cr3),
        ensures
            final(self).wf(),
            final(self)@.cr3 == old(self)@.cr3,
            final(self)@.frames() == old(self)@.frames(),
            final(self)@.flushes == old(self)@.flushes.push(TlbFlush::All).push(
                TlbFlush::Address(start_of(redirect.page()) as u64),
            ),
            final(self)@.tree(redirect.target()),
            !final(self)@.is_table(redirect.target(), final(self)@.cr3),
            final(self)@.same_hierarchy(old(self)@, redirect.target()),
            forall|x: nat| #[trigger]
                final(self)@.is_table(final(self).root(), x) <==> redirect.before().is_table(
                    final(self).root(),
                    x,
                ),
            forall|other: nat|
                p4_index_of(other) != 511 && !super::hierarchy::same_slot(other, redirect.page())
                    ==> #[trigger] final(self).translation(other)
                        == redirect.before().translate_from(
                    final(self).root(),
                    other,
                ),
            final(self).translation(redirect.page()).is_none(),
            final(tmp_page).wf(),
            final(tmp_page).page() == old(tmp_page).page(),
            final(tmp_page).reserve() == old(tmp_page).reserve().insert(old(self)@.cr3),
    {
        let ghost s = self@;
        let ghost before = redirect.before();
        let ghost target = redirect.target();
        let ghost active = s.cr3;
        let ghost page = redirect.page();
        let ghost path = TablePath::of_page(page);
        proof {
            lemma_restore(before, target, s);
            lemma_same_hierarchy_means(s, before, active);
            assert(s.translate_from(active, page) == Some(active));
        }
        // restore recursive mapping to the active p4 table
        redirect.p4_table.set_entry(self.mapper.machine_mut(), 511, redirect.backup);
        self.mapper.machine_mut().flush_tlb_all();
        let ghost s2 = self@;
        proof {
            lemma_same_hierarchy_means(s2, before, active);
            assert(s2.leaf(active, page) == before.leaf(active, page));
            assert(s2.translate_from(active, page) == Some(active));
        }
        tmp_page.unmap(self);
        proof {
            let s3 = self@;
            let entered = redirect.entered();
            let t1 = s2.table_at(active, path).unwrap();
            let mid = s2.write(t1, p1_index_of(page), 0);
            let request = TlbFlush::Address(start_of(page) as u64);
            lemma_raw_frame_bounded(0);
            lemma_grown_by_leaf(s2, page, 0, Set::empty());
            lemma_grown_means(mid, s2, page, Set::empty(), Set::empty());
            lemma_grown_by_flush(mid, request, page, Set::empty());
            lemma_grown_further(s2, mid, s3, page, Set::empty(), Set::empty(), Set::empty());
            lemma_grown_means(s3, s2, page, Set::empty(), Set::empty());
            super::hierarchy::lemma_flush_keeps(mid, request);
            assert(s3.translate_from(active, page) == mid.translate_from(active, page));
            // The hierarchy that the window showed.
            assert(s2.is_table(active, t1)) by {
                assert(path.proper());
            }
            assert(before.is_table(active, t1));
            assert(entered.is_table(active, t1)) by {
                lemma_same_hierarchy_means(entered, before, active);
            }
            assert(!s.is_table(target, t1));
            assert(!s2.is_table(target, t1)) by {
                lemma_same_hierarchy_means(s2, s, target);
            }
            assert forall|f: int|
                0 <= f < s2.frames() && s2.is_table(target, f as nat) implies #[trigger] s3.mem[f]
                == s2.mem[f] by {}
            super::hierarchy::lemma_same_hierarchy(s2, s3, target);
            assert(s3.word(target, 511) == s2.word(target, 511)) by {
                assert(s2.is_table(target, target)) by {
                    assert(TablePath::root().proper());
                    assert(s2.table_at(target, TablePath::root()) == Some(target));
                }
            }
            lemma_same_hierarchy_further(s, s2, s3, target);
            lemma_same_hierarchy_means(s3, s, target);
            assert(!s.is_table(target, active)) by {
                assert(entered.is_table(active, active)) by {
                    assert(TablePath::root().proper());
                    assert(entered.table_at(active, TablePath::root()) == Some(active));
                }
            }
        }
    }

    /// What holds of the mapper and the allocator when the function given
    /// to `with` is called: the recursive window shows the hierarchy of the
    /// table, which is what it was, the machine still translates with the
    /// active hierarchy, and the allocator is untouched.
    pub open spec fn with_entry<A: FrameAlloc>(
        before: MachineState,
        target: nat,
        reserve: Set<nat>,
        allocator: A,
        mapper: MachineState,
        given: A,
    ) -> bool {
        &&& mapper.redirected_since(mapper)
        &&& mapper.root() == Some(target)
        &&& mapper.cr3 == before.cr3
        &&& mapper.frames() == before.frames()
        &&& mapper.flushes == before.flushes.push(TlbFlush::All)
        &&& mapper.same_hierarchy(before, target)
        &&& forall|x: nat| #[trigger]
            mapper.is_table(mapper.cr3, x) ==> before.is_table(before.cr3, x) || reserve.contains(x)
        &&& given == allocator
    }

    /// Runs `f` against a mapper that edits the hierarchy of `table`
    /// instead of the active one, without loading the register: points the
    /// recursive window to that hierarchy, calls `f` with the mapper and the
    /// allocator, points the window back and unmaps the temporary page.
    ///
    /// `f` must leave the active hierarchy alone, and the temporary page
    /// must have room to take back the frame of the active level-4 table.
    pub fn with<A: FrameAlloc, F: FnOnce(&mut Mapper, &mut A)>(
        &mut self,
        table: &mut InactivePageTable,
        tmp_page: &mut TmpPage,
        allocator: &mut A,
        f: F,
    )
        requires
            old(self).wf(),
            old(tmp_page).wf(),
            old(self)@.tree(old(table).p4_frame@),
            old(table).p4_frame@ < ENTRY_FRAME_LIMIT,
            old(table).p4_frame@ != old(self)@.cr3,
            forall|x: nat| #[trigger]
                old(self)@.is_table(old(table).p4_frame@, x) ==> !old(self)@.is_table(
                    old(self).root(),
                    x,
                ) && (old(self)@.missing_tables(old(self).root(), old(tmp_page).page()) > 0
                    ==> !old(tmp_page).reserve().contains(x)),
            old(self)@.can_map(old(tmp_page).page(), old(tmp_page).reserve()),
            !old(tmp_page).reserve().contains(old(self)@.cr3),
            old(self)@.missing_tables(old(self).root(), old(tmp_page).page()) == 0
                ==> old(tmp_page).reserve().len() < 3,
            forall|mapper: &mut Mapper, given: &mut A|
                Self::with_entry(
                    old(self)@,
                    old(table).p4_frame@,
                    old(tmp_page).reserve(),
                    *old(allocator),
                    mapper@,
                    *given,
                ) ==> call_requires(f, (mapper, given)),
            forall|mapper: &mut Mapper, given: &mut A|
                Self::with_entry(
                    old(self)@,
                    old(table).p4_frame@,
                    old(tmp_page).reserve(),
                    *old(allocator),
                    mapper@,
                    *given,
                ) && call_ensures(f, (mapper, given), ()) ==> final(mapper)@.redirected_since(
                    mapper@,
                ),
        ensures
            final(self).wf(),
            final(self)@.cr3 == old(self)@.cr3,
            final(self)@.frames() == old(self)@.frames(),
            final(table).p4_frame@ == old(table).p4_frame@,
            final(self)@.tree(old(table).p4_frame@),
            !final(self)@.is_table(old(table).p4_frame@, final(self)@.cr3),
            final(self).translation(old(tmp_page).page()).is_none(),
            final(tmp_page).wf(),
            final(tmp_page).page() == old(tmp_page).page(),
            exists|mapper: &mut Mapper, given: &mut A|
                Self::with_entry(
                    old(self)@,
                    old(table).p4_frame@,
                    old(tmp_page).reserve(),
                    *old(allocator),
                    mapper@,
                    *given,
                ) && call_ensures(f, (mapper, given), ()) && *final(given) == *final(allocator)
                    && final(self)@.same_hierarchy(final(mapper)@, old(table).p4_frame@)
                        && final(self)@.flushes == final(mapper)@.flushes.push(TlbFlush::All).push(
                    TlbFlush::Address(start_of(old(tmp_page).page()) as u64),
                ),
    {
        let ghost s0 = self@;
        let ghost reserve0 = tmp_page.reserve();
        proof {
            tmp_page.lemma_reserve();
        }
        let redirect = self.with_begin(table, tmp_page);
        proof {
            tmp_page.lemma_reserve();
            lemma_grown_means(redirect.before(), s0, tmp_page.page(), reserve0, tmp_page.reserve());
            redirect.lemma_entered();
            lemma_same_hierarchy_means(self@, redirect.before(), s0.cr3);
            assert forall|x: nat| #[trigger] self@.is_table(self@.cr3, x) implies s0.is_table(
                s0.cr3,
                x,
            ) || reserve0.contains(x) by {
                assert(redirect.before().is_table(s0.cr3, x));
            }
            assert(self.mapper@ == self@);
            assert(Self::with_entry(
                s0,
                table.p4_frame@,
                reserve0,
                *old(allocator),
                self.mapper@,
                *allocator,
            ));
        }
        let ghost entered = self@;
        // execute f in the new context
        f(&mut self.mapper, allocator);
        assert(self@.redirected_since(entered));
        self.with_end(tmp_page, redirect);
    }

    /// Makes the hierarchy of `new_table` the active one: loads the
    /// register with its level-4 table. Returns the hierarchy that was
    /// active so far, so that the caller may reclaim it.
    pub fn switch(&mut self, new_table: InactivePageTable) -> (r: InactivePageTable)
        requires
            old(self).wf(),
            old(self)@.tree(new_table.p4_frame@),
        ensures
            final(self).wf(),
            final(self)@ == old(self)@.load_cr3(new_table.p4_frame@),
            final(self)@.same_hierarchy(old(self)@, new_table.p4_frame@),
            r.p4_frame@ == old(self)@.cr3,
    {
        proof {
            lemma_switch(self@, new_table.p4_frame@);
        }
        let old_table = InactivePageTable {
            p4_frame: Frame::from_number(self.mapper.machine().cr3()),
        };
        self.mapper.machine_mut().set_cr3(new_table.p4_frame.number());
        old_table
    }
}

} // verus!
