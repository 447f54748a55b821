//! What a set of pages asks of the frame allocator: the tables on the ways
//! to their level-1 entries that do not exist yet. Mapping a page takes one
//! frame for each of them and no other.

use vstd::prelude::*;

use super::entry::{lemma_raw_frame_bounded, raw_present};
use super::hierarchy::TablePath;
use super::machine::MachineState;
use super::page::p4_index_of;

verus! {

/// Number of codes that tell the paths apart.
pub const PATH_CODES: u64 = 0x2000_0000;

/// The path that a number stands for: depth and three indices, nine bits
/// each for the indices.
pub open spec fn path_of_code(code: int) -> TablePath {
    TablePath {
        depth: (code / 0x800_0000) as nat,
        i4: ((code / 0x4_0000) % 512) as nat,
        i3: ((code / 512) % 512) as nat,
        i2: (code % 512) as nat,
    }
}

/// The tables on the ways to the level-1 entries of the pages of the set:
/// for each page one of level 3, one of level 2 and one of level 1. Pages
/// of the recursive window have none.
pub open spec fn ways(pages: Set<nat>) -> Set<TablePath> {
    Set::new(
        |q: TablePath|
            q.proper() && q.depth >= 1 && exists|p: nat| #[trigger]
                pages.contains(p) && q == TablePath::of_page(p).prefix(q.depth),
    )
}

impl MachineState {
    /// The tables on the ways to the pages of the set that the hierarchy
    /// below `root` does not have.
    pub open spec fn missing_for(self, root: nat, pages: Set<nat>) -> Set<TablePath> {
        ways(pages).filter(|q: TablePath| self.table_at(root, q).is_none())
    }
}

/// The number that stands for a path.
pub open spec fn code_of_path(path: TablePath) -> int {
    (path.depth * 0x800_0000 + path.i4 * 0x4_0000 + path.i3 * 512 + path.i2) as int
}

/// Every path has a code of its own.
pub proof fn lemma_path_code(path: TablePath)
    requires
        path.ok(),
    ensures
        0 <= code_of_path(path) < PATH_CODES,
        path_of_code(code_of_path(path)) == path,
{
    let d = path.depth as int;
    let a = path.i4 as int;
    let b = path.i3 as int;
    let c = path.i2 as int;
    let low = b * 512 + c;
    let mid = a * 0x4_0000 + low;
    assert(0 <= low < 0x4_0000);
    assert(low % 512 == c && low / 512 == b);
    assert(0 <= mid < 0x800_0000);
    assert(mid / 0x4_0000 == a && mid % 0x4_0000 == low);
    let code = d * 0x800_0000 + mid;
    assert(code / 0x800_0000 == d);
    assert(code / 0x4_0000 == d * 512 + a);
    assert((code / 0x4_0000) % 512 == a);
    assert(code / 512 == d * 0x4_0000 + a * 512 + b);
    assert((code / 512) % 512 == b);
    assert(code % 512 == c);
}

/// There are finitely many tables on the ways to any set of pages.
pub proof fn lemma_ways_finite(pages: Set<nat>)
    ensures
        ways(pages).finite(),
{
    let codes = vstd::set_lib::set_int_range(0, PATH_CODES as int);
    vstd::set_lib::lemma_int_range(0, PATH_CODES as int);
    let all = codes.map(|code: int| path_of_code(code));
    codes.lemma_map_finite(|code: int| path_of_code(code));
    assert forall|q: TablePath| ways(pages).contains(q) implies all.contains(q) by {
        lemma_path_code(q);
        assert(codes.contains(code_of_path(q)));
    }
    vstd::set_lib::lemma_set_subset_finite(all, ways(pages));
}

/// A wider set of pages has the tables of the narrower one on its ways.
pub proof fn lemma_ways_wider(narrow: Set<nat>, wide: Set<nat>)
    requires
        narrow.subset_of(wide),
    ensures
        ways(narrow).subset_of(ways(wide)),
        ways(narrow).len() <= ways(wide).len(),
{
    assert forall|q: TablePath| ways(narrow).contains(q) implies ways(wide).contains(q) by {
        let p = choose|p: nat| #[trigger]
            narrow.contains(p) && q == TablePath::of_page(p).prefix(q.depth);
        assert(wide.contains(p));
    }
    lemma_ways_finite(wide);
    vstd::set_lib::lemma_len_subset(ways(narrow), ways(wide));
}

/// No set of pages has more than three tables for each page on its ways.
pub proof fn lemma_ways_bound(pages: Set<nat>)
    requires
        pages.finite(),
    ensures
        ways(pages).len() <= 3 * pages.len(),
    decreases pages.len(),
{
    lemma_ways_finite(pages);
    if pages.len() == 0 {
        assert(pages =~= Set::<nat>::empty());
        assert(ways(pages) =~= Set::<TablePath>::empty());
    } else {
        let page = pages.choose();
        let rest = pages.remove(page);
        let path = TablePath::of_page(page);
        let three = set![path.prefix(1), path.prefix(2), path.prefix(3)];
        lemma_ways_bound(rest);
        lemma_ways_union(rest, set![page]);
        assert(pages =~= rest.union(set![page]));
        assert forall|q: TablePath| ways(set![page]).contains(q) implies three.contains(q) by {
            let p = choose|p: nat| #[trigger]
                set![page].contains(p) && q == TablePath::of_page(p).prefix(q.depth);
            assert(p == page);
        }
        vstd::set_lib::lemma_len_subset(ways(set![page]), three);
        lemma_ways_finite(rest);
        lemma_ways_finite(set![page]);
        vstd::set_lib::lemma_len_union(ways(rest), ways(set![page]));
    }
}

/// Finitely many tables are missing for any set of pages.
pub proof fn lemma_missing_finite(s: MachineState, root: nat, pages: Set<nat>)
    ensures
        s.missing_for(root, pages).finite(),
        s.missing_for(root, pages).len() <= ways(pages).len(),
{
    lemma_ways_finite(pages);
    ways(pages).lemma_len_filter(|q: TablePath| s.table_at(root, q).is_none());
}

/// Where a hierarchy has no table but its level-4 table, every table on
/// the ways to a set of pages is missing.
pub proof fn lemma_missing_all(s: MachineState, root: nat, pages: Set<nat>)
    requires
        forall|q: TablePath|
            q.proper() && q.depth >= 1 ==> (#[trigger] s.table_at(root, q)).is_none(),
    ensures
        s.missing_for(root, pages) == ways(pages),
{
    assert(s.missing_for(root, pages) =~= ways(pages));
}

/// The tables on the ways to the pages of two sets are those on the ways
/// to the pages of their union.
pub proof fn lemma_ways_union(a: Set<nat>, b: Set<nat>)
    ensures
        ways(a.union(b)) == ways(a).union(ways(b)),
{
    assert forall|q: TablePath| ways(a.union(b)).contains(q) <==> ways(a).contains(q) || ways(
        b,
    ).contains(q) by {
        if ways(a.union(b)).contains(q) {
            let p = choose|p: nat| #[trigger]
                a.union(b).contains(p) && q == TablePath::of_page(p).prefix(q.depth);
            assert(a.contains(p) || b.contains(p));
        }
        if ways(a).contains(q) {
            let p = choose|p: nat| #[trigger]
                a.contains(p) && q == TablePath::of_page(p).prefix(q.depth);
            assert(a.union(b).contains(p));
        }
        if ways(b).contains(q) {
            let p = choose|p: nat| #[trigger]
                b.contains(p) && q == TablePath::of_page(p).prefix(q.depth);
            assert(a.union(b).contains(p));
        }
    }
    assert(ways(a.union(b)) =~= ways(a).union(ways(b)));
}

/// What is missing for two sets of pages is what is missing for their
/// union.
pub proof fn lemma_missing_union(s: MachineState, root: nat, a: Set<nat>, b: Set<nat>)
    ensures
        s.missing_for(root, a.union(b)) == s.missing_for(root, a).union(s.missing_for(root, b)),
        ways(a.union(b)) == ways(a).union(ways(b)),
{
    lemma_ways_union(a, b);
    assert(s.missing_for(root, a.union(b)) =~= s.missing_for(root, a).union(
        s.missing_for(root, b),
    ));
}

/// Mapping a page of a set takes from what is missing for the set just
/// the tables that were missing for the page: where a state has the tables
/// of the one before and, new, those on the way to the page, all of them,
/// the number of missing tables has gone down by that of the page.
pub proof fn lemma_missing_step(
    s1: MachineState,
    s2: MachineState,
    root: nat,
    page: nat,
    pages: Set<nat>,
)
    requires
        pages.contains(page),
        p4_index_of(page) != 511,
        s2.table_at(root, TablePath::of_page(page)).is_some(),
        forall|q: TablePath|
            q.proper() ==> ((#[trigger] s2.table_at(root, q)).is_some() <==> s1.table_at(
                root,
                q,
            ).is_some() || (q == TablePath::of_page(page).prefix(q.depth) && s2.table_at(
                root,
                q,
            ).is_some())),
    ensures
        s2.missing_for(root, pages).subset_of(s1.missing_for(root, pages)),
        s2.missing_for(root, pages).len() + s1.missing_tables(root, page) == s1.missing_for(
            root,
            pages,
        ).len(),
{
    let path = TablePath::of_page(page);
    let m1 = s1.missing_for(root, pages);
    let m2 = s2.missing_for(root, pages);
    let gone = set![path.prefix(1), path.prefix(2), path.prefix(3)].filter(
        |q: TablePath| s1.table_at(root, q).is_none(),
    );
    lemma_missing_finite(s1, root, pages);
    lemma_missing_finite(s2, root, pages);
    assert(path.prefix(3) == path);
    assert(path.prefix(1).proper() && path.prefix(2).proper() && path.proper());
    assert(ways(pages).contains(path.prefix(1)));
    assert(ways(pages).contains(path.prefix(2)));
    assert(ways(pages).contains(path.prefix(3)));
    assert(s2.table_at(root, path.prefix(1)).is_some());
    assert(s2.table_at(root, path.prefix(2)).is_some());
    assert forall|q: TablePath| m2.contains(q) <==> m1.contains(q) && !gone.contains(q) by {
        if ways(pages).contains(q) {
            assert(q.proper());
            if q == path.prefix(q.depth) {
                assert(q == path.prefix(1) || q == path.prefix(2) || q == path.prefix(3));
            }
        }
    }
    assert(m2 =~= m1.difference(gone));
    assert(gone.subset_of(m1));
    vstd::set_lib::lemma_len_subset(gone, m1);
    vstd::set_lib::lemma_set_difference_len(m1, gone);
    assert(m1.intersect(gone) =~= gone);
    if s1.table_at(root, path.prefix(1)).is_none() {
        assert(gone =~= set![path.prefix(1), path.prefix(2), path.prefix(3)]);
    } else if s1.table_at(root, path.prefix(2)).is_none() {
        assert(gone =~= set![path.prefix(2), path.prefix(3)]);
    } else if s1.table_at(root, path).is_none() {
        assert(gone =~= set![path.prefix(3)]);
    } else {
        assert(gone =~= Set::<TablePath>::empty());
    }
}

/// The pages from `first` to `last`, both included.
pub open spec fn page_range(first: nat, last: nat) -> Set<nat> {
    Set::new(|p: nat| first <= p <= last)
}

impl MachineState {
    /// The hierarchy below `root` has the tables that it had in `before`
    /// and those on the ways to the pages of the set, and no others.
    #[verifier::opaque]
    pub open spec fn grew_for(self, before: MachineState, root: nat, pages: Set<nat>) -> bool {
        forall|q: TablePath|
            q.proper() ==> ((#[trigger] self.table_at(root, q)).is_some() <==> before.table_at(
                root,
                q,
            ).is_some() || ways(pages).contains(q))
    }

    /// Beside its level-4 table the hierarchy below `root` has just the
    /// tables on the ways to the pages of the set.
    #[verifier::opaque]
    pub open spec fn tables_are(self, root: nat, pages: Set<nat>) -> bool {
        forall|q: TablePath|
            q.proper() && q.depth >= 1 ==> ((#[trigger] self.table_at(root, q)).is_some()
                <==> ways(pages).contains(q))
    }
}

/// What it means that a hierarchy grew for a set of pages: it has a table
/// just where it had one before or one lies on the ways to the pages, so
/// that no table is missing for them.
pub proof fn lemma_grew_means(s: MachineState, before: MachineState, root: nat, pages: Set<nat>)
    requires
        s.grew_for(before, root, pages),
    ensures
        forall|q: TablePath|
            q.proper() ==> ((#[trigger] s.table_at(root, q)).is_some() <==> before.table_at(
                root,
                q,
            ).is_some() || ways(pages).contains(q)),
        s.missing_for(root, pages) == Set::<TablePath>::empty(),
        s.missing_for(root, pages).len() == 0,
{
    reveal(MachineState::grew_for);
    assert(s.missing_for(root, pages) =~= Set::<TablePath>::empty());
}

/// A hierarchy that is as it was grew for no page.
pub proof fn lemma_grew_none(s: MachineState, before: MachineState, root: nat)
    requires
        forall|q: TablePath|
            q.proper() ==> ((#[trigger] s.table_at(root, q)).is_some() <==> before.table_at(
                root,
                q,
            ).is_some()),
    ensures
        s.grew_for(before, root, Set::empty()),
{
    reveal(MachineState::grew_for);
}

/// A hierarchy that grew for a set of pages, and then got the tables on
/// the way to one page more, grew for the set with that page.
pub proof fn lemma_grew_one_more(
    s0: MachineState,
    s1: MachineState,
    s2: MachineState,
    root: nat,
    pages: Set<nat>,
    page: nat,
)
    requires
        s1.grew_for(s0, root, pages),
        p4_index_of(page) != 511,
        s2.table_at(root, TablePath::of_page(page)).is_some(),
        forall|q: TablePath|
            q.proper() ==> ((#[trigger] s2.table_at(root, q)).is_some() <==> s1.table_at(
                root,
                q,
            ).is_some() || (q == TablePath::of_page(page).prefix(q.depth) && s2.table_at(
                root,
                q,
            ).is_some())),
    ensures
        s2.grew_for(s0, root, pages.insert(page)),
{
    reveal(MachineState::grew_for);
    let path = TablePath::of_page(page);
    assert(path.prefix(3) == path);
    assert(s2.table_at(root, path.prefix(1)).is_some());
    assert(s2.table_at(root, path.prefix(2)).is_some());
    lemma_missing_union(s2, root, pages, set![page]);
    assert(pages.insert(page) =~= pages.union(set![page]));
    assert forall|q: TablePath| q.proper() implies ((#[trigger] s2.table_at(root, q)).is_some()
        <==> s0.table_at(root, q).is_some() || ways(pages.insert(page)).contains(q)) by {
        assert(s1.table_at(root, q).is_some() <==> s0.table_at(root, q).is_some() || ways(
            pages,
        ).contains(q));
        if ways(set![page]).contains(q) {
            let p = choose|p: nat| #[trigger]
                set![page].contains(p) && q == TablePath::of_page(p).prefix(q.depth);
            assert(p == page);
            assert(q == path.prefix(1) || q == path.prefix(2) || q == path.prefix(3));
        }
        if q == path.prefix(q.depth) && q.depth >= 1 {
            assert(set![page].contains(page));
            assert(ways(set![page]).contains(q));
        }
    }
}

/// Growing for one set of pages and then for another is growing for both.
pub proof fn lemma_grew_further(
    s0: MachineState,
    s1: MachineState,
    s2: MachineState,
    root: nat,
    first: Set<nat>,
    then: Set<nat>,
)
    requires
        s1.grew_for(s0, root, first),
        s2.grew_for(s1, root, then),
    ensures
        s2.grew_for(s0, root, first.union(then)),
{
    reveal(MachineState::grew_for);
    lemma_missing_union(s2, root, first, then);
    assert forall|q: TablePath| q.proper() implies ((#[trigger] s2.table_at(root, q)).is_some()
        <==> s0.table_at(root, q).is_some() || ways(first.union(then)).contains(q)) by {
        assert(s1.table_at(root, q).is_some() <==> s0.table_at(root, q).is_some() || ways(
            first,
        ).contains(q));
    }
}

/// A level-4 table with no present entry but the recursive one has no
/// tables below it.
pub proof fn lemma_tables_none(s: MachineState, root: nat)
    requires
        forall|i: nat| i < 512 && i != 511 ==> !raw_present(#[trigger] s.word(root, i)),
    ensures
        s.tables_are(root, Set::empty()),
{
    reveal(MachineState::tables_are);
    assert forall|q: TablePath| q.proper() && q.depth >= 1 implies ((#[trigger] s.table_at(
        root,
        q,
    )).is_some() <==> ways(Set::<nat>::empty()).contains(q)) by {
        assert(!raw_present(s.word(root, q.i4)));
    }
}

/// A level-4 table with nothing mapped has no tables below it.
pub proof fn lemma_lone_tables(s: MachineState, root: nat)
    requires
        s.lone_root(root),
    ensures
        s.tables_are(root, Set::empty()),
        forall|q: TablePath|
            q.proper() && q.depth >= 1 ==> (#[trigger] s.table_at(root, q)).is_none(),
{
    lemma_raw_frame_bounded(0);
    assert forall|i: nat| i < 512 && i != 511 implies !raw_present(#[trigger] s.word(root, i)) by {
        assert(s.word(root, i) == 0);
    }
    lemma_tables_none(s, root);
    assert forall|q: TablePath| q.proper() && q.depth >= 1 implies (#[trigger] s.table_at(
        root,
        q,
    )).is_none() by {
        assert(!raw_present(s.word(root, q.i4)));
    }
}

/// The tables of a hierarchy that grew are those that it had and those on
/// the ways to the pages it grew for.
pub proof fn lemma_tables_grew(
    s: MachineState,
    before: MachineState,
    root: nat,
    had: Set<nat>,
    pages: Set<nat>,
)
    requires
        before.tables_are(root, had),
        s.grew_for(before, root, pages),
    ensures
        s.tables_are(root, had.union(pages)),
{
    reveal(MachineState::tables_are);
    reveal(MachineState::grew_for);
    lemma_missing_union(s, root, had, pages);
    assert forall|q: TablePath| q.proper() && q.depth >= 1 implies ((#[trigger] s.table_at(
        root,
        q,
    )).is_some() <==> ways(had.union(pages)).contains(q)) by {
        assert(before.table_at(root, q).is_some() <==> ways(had).contains(q));
    }
}

/// The tables of a hierarchy are the same in a state that has the same
/// tables, and for a set of pages that is the same.
pub proof fn lemma_tables_same(
    s1: MachineState,
    s2: MachineState,
    root: nat,
    pages: Set<nat>,
    others: Set<nat>,
)
    requires
        s1.tables_are(root, pages),
        pages =~= others,
        forall|q: TablePath|
            q.proper() ==> ((#[trigger] s2.table_at(root, q)).is_some() <==> s1.table_at(
                root,
                q,
            ).is_some()),
    ensures
        s2.tables_are(root, others),
{
    reveal(MachineState::tables_are);
    assert forall|q: TablePath| q.proper() && q.depth >= 1 implies ((#[trigger] s2.table_at(
        root,
        q,
    )).is_some() <==> ways(others).contains(q)) by {
        assert(s1.table_at(root, q).is_some() <==> ways(pages).contains(q));
    }
}

/// Where a hierarchy has just the tables for one set of pages, those for
/// that set and the missing ones for another are, together, the tables for
/// both sets.
pub proof fn lemma_tables_missing(s: MachineState, root: nat, had: Set<nat>, pages: Set<nat>)
    requires
        s.tables_are(root, had),
    ensures
        s.missing_for(root, pages) == ways(pages).difference(ways(had)),
        ways(had).len() + s.missing_for(root, pages).len() == ways(had.union(pages)).len(),
{
    reveal(MachineState::tables_are);
    lemma_missing_union(s, root, had, pages);
    lemma_ways_finite(had);
    lemma_ways_finite(pages);
    lemma_missing_finite(s, root, pages);
    assert(s.missing_for(root, pages) =~= ways(pages).difference(ways(had)));
    assert(ways(had).disjoint(s.missing_for(root, pages)));
    assert(ways(had).union(s.missing_for(root, pages)) =~= ways(had).union(ways(pages)));
    vstd::set_lib::lemma_set_disjoint_lens(ways(had), s.missing_for(root, pages));
}

/// For a page of a set no more tables are missing than for the set.
pub proof fn lemma_missing_of_page(s: MachineState, root: nat, page: nat, pages: Set<nat>)
    requires
        pages.contains(page),
        p4_index_of(page) != 511,
    ensures
        s.missing_tables(root, page) <= s.missing_for(root, pages).len(),
{
    let path = TablePath::of_page(page);
    let m1 = s.missing_for(root, pages);
    let gone = set![path.prefix(1), path.prefix(2), path.prefix(3)].filter(
        |q: TablePath| s.table_at(root, q).is_none(),
    );
    lemma_missing_finite(s, root, pages);
    assert(path.prefix(3) == path);
    assert(path.prefix(1).proper() && path.prefix(2).proper() && path.proper());
    assert(ways(pages).contains(path.prefix(1)));
    assert(ways(pages).contains(path.prefix(2)));
    assert(ways(pages).contains(path.prefix(3)));
    assert(gone.subset_of(m1));
    vstd::set_lib::lemma_len_subset(gone, m1);
    if s.table_at(root, path.prefix(1)).is_none() {
        assert(gone =~= set![path.prefix(1), path.prefix(2), path.prefix(3)]);
    } else if s.table_at(root, path.prefix(2)).is_none() {
        assert(gone =~= set![path.prefix(2), path.prefix(3)]);
    } else if s.table_at(root, path).is_none() {
        assert(gone =~= set![path.prefix(3)]);
    } else {
        assert(gone =~= Set::<TablePath>::empty());
    }
}

/// For a single page the missing tables are those on its way.
pub proof fn lemma_missing_one(s: MachineState, root: nat, page: nat)
    requires
        p4_index_of(page) != 511,
    ensures
        s.missing_for(root, page_range(page, page)).len() == s.missing_tables(root, page),
{
    let path = TablePath::of_page(page);
    let pages = page_range(page, page);
    let m1 = s.missing_for(root, pages);
    assert(pages.contains(page));
    assert(path.prefix(3) == path);
    assert(path.prefix(1).proper() && path.prefix(2).proper() && path.proper());
    assert(ways(pages).contains(path.prefix(1)));
    assert(ways(pages).contains(path.prefix(2)));
    assert(ways(pages).contains(path.prefix(3)));
    assert forall|q: TablePath| ways(pages).contains(q) implies q == path.prefix(1) || q
        == path.prefix(2) || q == path.prefix(3) by {
        let p = choose|p: nat| #[trigger]
            pages.contains(p) && q == TablePath::of_page(p).prefix(q.depth);
        assert(p == page);
    }
    if s.table_at(root, path.prefix(1)).is_none() {
        assert(m1 =~= set![path.prefix(1), path.prefix(2), path.prefix(3)]);
    } else if s.table_at(root, path.prefix(2)).is_none() {
        assert(m1 =~= set![path.prefix(2), path.prefix(3)]);
    } else if s.table_at(root, path).is_none() {
        assert(m1 =~= set![path.prefix(3)]);
    } else {
        assert(m1 =~= Set::<TablePath>::empty());
    }
}

/// Growing for one set of pages and then for another takes as many tables
/// as are missing for both sets together.
pub proof fn lemma_missing_then(
    s0: MachineState,
    s1: MachineState,
    root: nat,
    first: Set<nat>,
    then: Set<nat>,
)
    requires
        s1.grew_for(s0, root, first),
    ensures
        s0.missing_for(root, first.union(then)).len() == s0.missing_for(root, first).len()
            + s1.missing_for(root, then).len(),
{
    reveal(MachineState::grew_for);
    lemma_missing_union(s0, root, first, then);
    lemma_missing_finite(s0, root, first);
    lemma_missing_finite(s1, root, then);
    let a = s0.missing_for(root, first);
    let b = s1.missing_for(root, then);
    assert(a.disjoint(b));
    assert forall|q: TablePath| s0.missing_for(root, first.union(then)).contains(q)
        <==> a.contains(q) || b.contains(q) by {
        if ways(first).contains(q) || ways(then).contains(q) {
            assert(q.proper());
            assert(s1.table_at(root, q).is_some() <==> s0.table_at(root, q).is_some() || ways(
                first,
            ).contains(q));
        }
    }
    assert(s0.missing_for(root, first.union(then)) =~= a.union(b));
    vstd::set_lib::lemma_set_disjoint_lens(a, b);
}

} // verus!
