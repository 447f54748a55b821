//! A hierarchy of page tables that the machine does not translate with.

use vstd::prelude::*;

use super::active_page_table::ActivePageTable;
use super::entry::{lemma_raw_entry, lemma_raw_frame_bounded, raw_present, EntryFlags, ENTRY_FRAME_LIMIT};
use super::frame::Frame;
use super::hierarchy::{
    lemma_cleared_root, lemma_flush_keeps, lemma_grown_beside, lemma_grown_by_flush,
    lemma_grown_by_leaf, lemma_grown_further, lemma_grown_means, lemma_grown_wider,
    lemma_lone_root_stays, lemma_table_flags, lemma_walk_reads_tables, lemma_write_leaf, TablePath,
};
use super::machine::TlbFlush;
use super::page::p1_index_of;
use super::tmp_page::TmpPage;
use super::start_of;

verus! {

/// A level-4 table that is not the active one, with the tables below it.
pub struct InactivePageTable {
    pub p4_frame: Frame,
}

impl InactivePageTable {
    /// Makes the frame an empty level-4 table: maps it at the temporary
    /// page, clears it, sets its recursive entry, and unmaps it again. The
    /// frame ends up in the temporary page's keeping.
    ///
    /// The frame must lie in memory and must be no table of the active
    /// hierarchy, and the temporary page must be ready to be mapped and to
    /// take the frame back afterwards.
    pub fn new(frame: Frame, active_table: &mut ActivePageTable, tmp_page: &mut TmpPage) -> (r:
        InactivePageTable)
        requires
            old(active_table).wf(),
            old(tmp_page).wf(),
            frame@ < ENTRY_FRAME_LIMIT,
            frame@ < old(active_table)@.frames(),
            !old(active_table)@.is_table(old(active_table).root(), frame@),
            !old(tmp_page).reserve().contains(frame@),
            old(active_table)@.can_map(old(tmp_page).page(), old(tmp_page).reserve()),
            old(active_table)@.missing_tables(old(active_table).root(), old(tmp_page).page()) == 0
                ==> old(tmp_page).reserve().len() < 3,
        ensures
            r.p4_frame@ == frame@,
            final(active_table).wf(),
            final(tmp_page).wf(),
            final(tmp_page).page() == old(tmp_page).page(),
            final(active_table)@.grown_from(
                old(active_table)@,
                old(tmp_page).page(),
                old(tmp_page).reserve().insert(frame@),
                final(tmp_page).reserve(),
            ),
            final(tmp_page).reserve().contains(frame@),
            final(tmp_page).reserve().len() + old(active_table)@.missing_tables(
                old(active_table).root(),
                old(tmp_page).page(),
            ) == old(tmp_page).reserve().len() + 1,
            final(active_table)@.lone_root(frame@),
            final(active_table)@.word(frame@, 511) == super::entry::raw_entry(
                frame@,
                EntryFlags::PRESENT | EntryFlags::WRITABLE,
            ),
            forall|i: nat| i < 511 ==> #[trigger] final(active_table)@.word(frame@, i) == 0,
            final(active_table).translation(old(tmp_page).page()).is_none(),
            final(active_table)@.flushes == old(active_table)@.flushes.push(
                TlbFlush::Address(start_of(old(tmp_page).page()) as u64),
            ),
            final(active_table)@.missing_tables(final(active_table).root(), old(tmp_page).page())
                == 0,
            final(active_table)@.path_clear(final(active_table).root(), old(tmp_page).page()),
    {
        let ghost s0 = active_table@;
        let ghost root = active_table.root();
        let ghost reserve0 = tmp_page.reserve();
        let ghost page = tmp_page.page();
        let ghost number = frame@;
        let ghost path = TablePath::of_page(page);
        let ghost only = set![number];
        proof {
            tmp_page.lemma_reserve();
        }
        let table = tmp_page.map_table_frame(frame.clone(), active_table);
        let ghost s1 = active_table@;
        let ghost reserve1 = tmp_page.reserve();
        proof {
            tmp_page.lemma_reserve();
            assert(!s1.is_table(root, number) && s1.root() == Some(root) && s1.cr3 == root
                && s1.frames() == s0.frames() && reserve1.subset_of(reserve0)) by {
                lemma_grown_means(s1, s0, page, reserve0, reserve1);
            }
            assert(!s1.walk_reads(s1.cr3, page, number)) by {
                if s1.walk_reads(root, page, number) {
                    lemma_walk_reads_tables(s1, root, page, number);
                }
            }
            assert(s1.is_table(root, root)) by {
                assert(TablePath::root().proper());
                assert(s1.table_at(root, TablePath::root()) == Some(root));
            }
        }
        table.clear(active_table.mapper_mut().machine_mut());
        let ghost s2 = active_table@;
        proof {
            lemma_grown_beside(s1, s2, page, only);
            assert(s2.hierarchy_ok() && s2.root() == Some(root) && s2.cr3 == root) by {
                lemma_grown_means(s2, s1, page, only, only);
            }
            assert(s2.translate_from(root, page) == s1.translate_from(root, page));
            assert(s2.leaf(root, page) == s1.leaf(root, page));
            assert(!s2.is_table(root, number)) by {
                lemma_grown_means(s2, s1, page, only, only);
            }
        }
        let mut entry = table.entry(active_table.mapper().machine(), 511);
        entry.set(
            frame.clone(),
            EntryFlags::from_bits_truncate(EntryFlags::PRESENT | EntryFlags::WRITABLE),
        );
        proof {
            lemma_table_flags();
        }
        table.set_entry(active_table.mapper_mut().machine_mut(), 511, entry);
        let ghost s3 = active_table@;
        proof {
            lemma_grown_beside(s2, s3, page, only);
            assert(s3.hierarchy_ok() && s3.root() == Some(root) && s3.cr3 == root) by {
                lemma_grown_means(s3, s2, page, only, only);
            }
            assert(!s3.is_table(root, number)) by {
                lemma_grown_means(s3, s2, page, only, only);
            }
            assert(s3.translate_from(root, page) == s2.translate_from(root, page));
            assert(s3.leaf(root, page) == s2.leaf(root, page));
            assert(s3.table_at(root, path) == s2.table_at(root, path)) by {
                assert(path.proper());
            }
            assert(raw_present(s3.leaf(root, page).unwrap())) by {
                assert(0x2u64 | 0x1u64 == 3) by (bit_vector);
                lemma_raw_entry(number, 3);
            }
            assert(s3.lone_root(number)) by {
                lemma_cleared_root(s1, number);
            }
            lemma_grown_further(s1, s2, s3, page, only, only, only);
        }
        tmp_page.unmap(active_table);
        proof {
            let s4 = active_table@;
            let t1 = s3.table_at(root, path).unwrap();
            let mid = s3.write(t1, p1_index_of(page), 0);
            let request = TlbFlush::Address(start_of(page) as u64);
            lemma_raw_frame_bounded(0);
            lemma_grown_by_leaf(s3, page, 0, only);
            assert(mid.hierarchy_ok()) by {
                lemma_grown_means(mid, s3, page, only, only);
            }
            lemma_grown_by_flush(mid, request, page, only);
            lemma_grown_further(s3, mid, s4, page, only, only, only);
            lemma_grown_further(s1, s3, s4, page, only, only, only);
            lemma_grown_wider(s4, s1, page, only, only, reserve1);
            lemma_grown_wider(s1, s0, page, reserve0, reserve1, only);
            assert(only.union(reserve1) =~= reserve1.union(only));
            lemma_grown_further(
                s0,
                s1,
                s4,
                page,
                reserve0.union(only),
                reserve1.union(only),
                reserve1.union(only),
            );
            assert(reserve0.union(only) =~= reserve0.insert(number));
            assert(reserve1.union(only) =~= tmp_page.reserve());
            assert(s3.is_table(root, t1)) by {
                assert(path.proper());
            }
            assert(s4.mem[number as int] == s3.mem[number as int]);
            lemma_lone_root_stays(s3, s4, number);
            assert(s4.root() == Some(root) && s4.cr3 == root && s4.hierarchy_ok()) by {
                lemma_grown_means(s4, s3, page, only, only);
            }
            lemma_flush_keeps(mid, request);
            assert(s4.translate_from(root, page) == mid.translate_from(root, page));
            assert(s4.leaf(root, page) == mid.leaf(root, page));
            assert(s4.table_at(root, path) == s3.table_at(root, path)) by {
                assert(path.proper());
                lemma_write_leaf(s3, page, 0);
                assert(mid.table_at(root, path) == s3.table_at(root, path));
            }
            assert(s4.table_at(root, path.prefix(1)).is_some());
            assert(s4.table_at(root, path.prefix(2)).is_some());
        }
        InactivePageTable { p4_frame: frame }
    }
}

} // verus!
