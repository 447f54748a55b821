//! What a hierarchy of page tables is, as mathematics: the tables that can
//! be reached from a level-4 table, the addresses under which the recursive
//! entry shows them, and the translation that they define.

use vstd::prelude::*;

use super::entry::{
    lemma_raw_entry, lemma_raw_frame_bounded, raw_entry, raw_frame, raw_huge, raw_present,
    EntryFlags, ENTRY_FRAME_LIMIT,
};
use super::machine::{MachineState, TlbFlush};
use super::page::{p1_index_of, p2_index_of, p3_index_of, p4_index_of};

verus! {

/// Index of the entry of a level-4 table that points back to the table.
pub const RECURSIVE_INDEX: usize = 511;

/// Number of the first page of the window in which the recursive entry shows
/// the tables: the page whose four indices are 511, 0, 0, 0.
pub const RECURSIVE_WINDOW: u64 = 0xf_ffff_f800_0000;

/// The way from a level-4 table down to one of its tables: the indices of
/// the entries to follow. Indices beyond the depth are zero.
pub struct TablePath {
    /// Number of entries to follow: 0 for the level-4 table itself, 3 for a
    /// level-1 table.
    pub depth: nat,
    /// Index into the level-4 table.
    pub i4: nat,
    /// Index into the level-3 table.
    pub i3: nat,
    /// Index into the level-2 table.
    pub i2: nat,
}

impl TablePath {
    /// The path to the level-4 table itself.
    pub open spec fn root() -> TablePath {
        TablePath { depth: 0, i4: 0, i3: 0, i2: 0 }
    }

    /// The path to the level-1 table that maps the page with the given number.
    pub open spec fn of_page(page: nat) -> TablePath {
        TablePath {
            depth: 3,
            i4: p4_index_of(page),
            i3: p3_index_of(page),
            i2: p2_index_of(page),
        }
    }

    /// The first `depth` steps of the path.
    pub open spec fn prefix(self, depth: nat) -> TablePath {
        TablePath {
            depth,
            i4: if depth >= 1 { self.i4 } else { 0 },
            i3: if depth >= 2 { self.i3 } else { 0 },
            i2: if depth >= 3 { self.i2 } else { 0 },
        }
    }

    /// The indices are table indices, and those beyond the depth are zero.
    pub open spec fn ok(self) -> bool {
        &&& self.depth <= 3
        &&& self.i4 < 512 && self.i3 < 512 && self.i2 < 512
        &&& self.depth < 1 ==> self.i4 == 0
        &&& self.depth < 2 ==> self.i3 == 0
        &&& self.depth < 3 ==> self.i2 == 0
    }

    /// The path does not pass through the recursive entry.
    pub open spec fn proper(self) -> bool {
        &&& self.ok()
        &&& self.depth >= 1 ==> self.i4 != 511
    }

    /// The path that goes one entry further.
    pub open spec fn push(self, index: nat) -> TablePath {
        if self.depth == 0 {
            TablePath { depth: 1, i4: index, i3: 0, i2: 0 }
        } else if self.depth == 1 {
            TablePath { depth: 2, i4: self.i4, i3: index, i2: 0 }
        } else {
            TablePath { depth: 3, i4: self.i4, i3: self.i3, i2: index }
        }
    }

    /// Number of the page under which the recursive entry shows the table at
    /// the end of the path.
    pub open spec fn token_page(self) -> nat {
        if self.depth == 0 {
            (RECURSIVE_WINDOW + 511 * 0x4_0000 + 511 * 512 + 511) as nat
        } else if self.depth == 1 {
            (RECURSIVE_WINDOW + 511 * 0x4_0000 + 511 * 512 + self.i4) as nat
        } else if self.depth == 2 {
            (RECURSIVE_WINDOW + 511 * 0x4_0000 + self.i4 * 512 + self.i3) as nat
        } else {
            (RECURSIVE_WINDOW + self.i4 * 0x4_0000 + self.i3 * 512 + self.i2) as nat
        }
    }
}

impl MachineState {
    /// The level-4 table that the recursive entry of the active table points
    /// to. Table edits through the recursive window reach this hierarchy.
    pub open spec fn root(self) -> Option<nat> {
        self.child(self.cr3, 511)
    }

    /// The recursive window works: the active table's recursive entry leads
    /// to a level-4 table whose own recursive entry points to itself.
    pub open spec fn recursive(self) -> bool {
        &&& self.wf()
        &&& self.root().is_some()
        &&& self.child(self.root().unwrap(), 511) == self.root()
        &&& self.root().unwrap() < self.frames()
    }

    /// The table at the end of the path that starts at the level-4 table in
    /// frame `root`, if every entry on the path leads to a table.
    pub open spec fn table_at(self, root: nat, path: TablePath) -> Option<nat> {
        if path.depth == 0 {
            Some(root)
        } else {
            match self.child(root, path.i4) {
                None => None,
                Some(t3) => if path.depth == 1 {
                    Some(t3)
                } else {
                    match self.child(t3, path.i3) {
                        None => None,
                        Some(t2) => if path.depth == 2 {
                            Some(t2)
                        } else {
                            self.child(t2, path.i2)
                        },
                    }
                },
            }
        }
    }

    /// Whether the frame is a table of the hierarchy below `root`.
    pub open spec fn is_table(self, root: nat, frame: nat) -> bool {
        exists|path: TablePath| path.proper() && #[trigger] self.table_at(root, path) == Some(frame)
    }

    /// The frames that are tables of the hierarchy below `root`.
    pub open spec fn tables(self, root: nat) -> Set<nat> {
        Set::new(|frame: nat| self.is_table(root, frame))
    }

    /// Every table of the hierarchy below `root` lies in physical memory,
    /// and no table is reached on two ways.
    #[verifier::opaque]
    pub open spec fn tables_apart(self, root: nat) -> bool {
        &&& forall|path: TablePath|
            path.proper() && (#[trigger] self.table_at(root, path)).is_some() ==> self.table_at(
                root,
                path,
            ).unwrap() < self.frames()
        &&& forall|p: TablePath, q: TablePath|
            p.proper() && q.proper() && (#[trigger] self.table_at(root, p)).is_some()
                && self.table_at(root, p) == (#[trigger] self.table_at(root, q)) ==> p == q
    }

    /// The hierarchy below `root` is a tree of tables in physical memory: the
    /// recursive entry points to the root, present and writable and with
    /// no other flag, every table lies in memory, and no table is reached
    /// on two ways.
    pub open spec fn tree(self, root: nat) -> bool {
        &&& self.wf()
        &&& root < self.frames()
        &&& self.child(root, 511) == Some(root)
        &&& self.word(root, 511) == raw_entry(root, EntryFlags::PRESENT | EntryFlags::WRITABLE)
        &&& self.tables_apart(root)
    }

    /// The level-1 entry that maps the page with the given number, if the
    /// tables down to level 1 exist.
    pub open spec fn leaf(self, root: nat, page: nat) -> Option<u64> {
        match self.table_at(root, TablePath::of_page(page)) {
            Some(t1) => if t1 < self.frames() {
                Some(self.word(t1, p1_index_of(page)))
            } else {
                None
            },
            None => None,
        }
    }
}

/// The four indices of a page number in the upper half of the address
/// space that is put together from them.
proof fn lemma_compose(a: u64, b: u64, c: u64, d: u64, n: u64)
    by (bit_vector)
    requires
        a < 512,
        b < 512,
        c < 512,
        d < 512,
        n == 0xf_fff0_0000_0000u64 + a * 0x800_0000u64 + b * 0x4_0000u64 + c * 512u64 + d,
    ensures
        n < 0x0010_0000_0000_0000u64,
        (n / 0x800_0000u64) % 512u64 == a,
        (n / 0x4_0000u64) % 512u64 == b,
        (n / 512u64) % 512u64 == c,
        n % 512u64 == d,
        n % 0x4_0000u64 == c * 512u64 + d,
{
}

/// The four indices of the page under which a table is shown: as many
/// recursive indices in front as the path is short of four steps, then the
/// path's own indices.
pub proof fn lemma_token_page_indices(path: TablePath)
    requires
        path.ok(),
    ensures
        path.token_page() < super::FRAME_LIMIT,
        p4_index_of(path.token_page()) == 511,
        p3_index_of(path.token_page()) == (if path.depth == 3 { path.i4 } else { 511 }),
        p2_index_of(path.token_page()) == (if path.depth == 3 {
            path.i3
        } else if path.depth == 2 {
            path.i4
        } else {
            511
        }),
        p1_index_of(path.token_page()) == (if path.depth == 3 {
            path.i2
        } else if path.depth == 2 {
            path.i3
        } else if path.depth == 1 {
            path.i4
        } else {
            511
        }),
        path.depth < 3 ==> forall|index: nat| index < 512
            ==> #[trigger] path.push(index).token_page()
            == RECURSIVE_WINDOW + (path.token_page() % 0x4_0000) * 512 + index,
{
    let n = path.token_page() as u64;
    if path.depth == 0 {
        lemma_compose(511, 511, 511, 511, n);
    } else if path.depth == 1 {
        lemma_compose(511, 511, 511, path.i4 as u64, n);
    } else if path.depth == 2 {
        lemma_compose(511, 511, path.i4 as u64, path.i3 as u64, n);
    } else {
        lemma_compose(511, path.i4 as u64, path.i3 as u64, path.i2 as u64, n);
    }
}

/// Through the recursive window the processor reaches each table of the
/// hierarchy under the page that the table's path gives.
pub proof fn lemma_token_resolves(s: MachineState, path: TablePath)
    requires
        s.recursive(),
        path.ok(),
        s.table_at(s.root().unwrap(), path).is_some(),
    ensures
        s.resolve_page(path.token_page()) == s.table_at(s.root().unwrap(), path),
{
    lemma_token_page_indices(path);
}

impl MachineState {
    /// The hierarchy that the recursive window shows is in order: the window
    /// works, the hierarchy is a tree, and the active level-4 table is either
    /// its root or no table of it.
    pub open spec fn hierarchy_ok(self) -> bool {
        &&& self.recursive()
        &&& self.tree(self.root().unwrap())
        &&& self.cr3 == self.root().unwrap() || !self.is_table(self.root().unwrap(), self.cr3)
    }

    /// The state after a fresh table in frame `table` has been put behind
    /// the entry at `index` of the table in frame `parent`.
    pub open spec fn with_table(self, parent: nat, index: nat, table: nat) -> MachineState {
        self.write(
            parent,
            index,
            raw_entry(table, EntryFlags::PRESENT | EntryFlags::WRITABLE),
        ).clear_frame(table)
    }
}

/// The flags of the entry that leads to a new table.
pub proof fn lemma_table_flags()
    ensures
        EntryFlags::PRESENT | EntryFlags::WRITABLE == 3,
        (EntryFlags::PRESENT | EntryFlags::WRITABLE) & !EntryFlags::ALL == 0,
        (EntryFlags::PRESENT | EntryFlags::WRITABLE) & EntryFlags::ALL == EntryFlags::PRESENT
            | EntryFlags::WRITABLE,
        super::entry::has_flag(EntryFlags::PRESENT | EntryFlags::WRITABLE, EntryFlags::PRESENT),
        !super::entry::has_flag(EntryFlags::PRESENT | EntryFlags::WRITABLE, EntryFlags::HUGE_PAGE),
{
    assert(0x1u64 | 0x2u64 == 3 && (0x1u64 | 0x2u64) & !0x8000_0000_0000_01ffu64 == 0 && (0x1u64
        | 0x2u64) & 0x8000_0000_0000_01ffu64 == 0x1u64 | 0x2u64 && (0x1u64
        | 0x2u64) & 0x1u64 == 0x1u64 && (0x1u64 | 0x2u64) & 0x80u64 != 0x80u64) by (bit_vector);
}

/// Every table that a path reaches, through the recursive entry or not, lies
/// in physical memory.
pub proof fn lemma_table_in_memory(s: MachineState, root: nat, path: TablePath)
    requires
        s.tree(root),
        path.ok(),
        s.table_at(root, path).is_some(),
    ensures
        s.table_at(root, path).unwrap() < s.frames(),
{
    reveal(MachineState::tables_apart);
    let one = TablePath { depth: 1, i4: path.i3, i3: 0, i2: 0 };
    let one_last = TablePath { depth: 1, i4: path.i2, i3: 0, i2: 0 };
    let two = TablePath { depth: 2, i4: path.i3, i3: path.i2, i2: 0 };
    if path.depth == 0 || path.i4 != 511 {
        assert(path.proper());
    } else if path.depth == 1 {
    } else if path.depth == 2 {
        if path.i3 != 511 {
            assert(one.proper());
            assert(s.table_at(root, one) == s.table_at(root, path));
        }
    } else {
        if path.i3 != 511 {
            assert(two.proper());
            assert(s.table_at(root, two) == s.table_at(root, path));
        } else if path.i2 != 511 {
            assert(one_last.proper());
            assert(s.table_at(root, one_last) == s.table_at(root, path));
        }
    }
}

/// Putting a fresh table behind an absent entry changes what one path
/// reaches, the path to the new table, and no other.
pub proof fn lemma_with_table_path(
    s: MachineState,
    root: nat,
    path: TablePath,
    index: nat,
    table: nat,
    q: TablePath,
)
    requires
        s.tree(root),
        path.proper(),
        path.depth < 3,
        index < 512,
        path.push(index).proper(),
        s.table_at(root, path).is_some(),
        !raw_present(s.word(s.table_at(root, path).unwrap(), index)),
        table < s.frames(),
        table < ENTRY_FRAME_LIMIT,
        !s.is_table(root, table),
        q.proper(),
    ensures
        s.with_table(s.table_at(root, path).unwrap(), index, table).table_at(root, q) == (if q
            == path.push(index) {
            Some(table)
        } else {
            s.table_at(root, q)
        }),
{
    reveal(MachineState::tables_apart);
    let parent = s.table_at(root, path).unwrap();
    let s2 = s.with_table(parent, index, table);
    lemma_table_flags();
    lemma_raw_entry(table, EntryFlags::PRESENT | EntryFlags::WRITABLE);
    lemma_raw_frame_bounded(0);
    assert(s.table_at(root, path) == Some(parent));
    assert(parent < s.frames());
    assert(parent != table) by {
        assert(s.is_table(root, parent));
    }
    assert(root != table) by {
        assert(s.table_at(root, TablePath::root()) == Some(root));
        assert(TablePath::root().proper());
    }
    // What the words of the new state are.
    assert forall|f: nat, i: nat| f < s.frames() && i < 512 implies #[trigger] s2.word(f, i) == (
    if f == table {
        0u64
    } else if f == parent && i == index {
        raw_entry(table, EntryFlags::PRESENT | EntryFlags::WRITABLE)
    } else {
        s.word(f, i)
    }) by {}
    let q1 = q.prefix(1);
    let q2 = q.prefix(2);
    if q.depth >= 1 {
        assert(q1.proper());
        assert(s2.word(root, q.i4) == (if root == parent && q.i4 == index {
            raw_entry(table, EntryFlags::PRESENT | EntryFlags::WRITABLE)
        } else {
            s.word(root, q.i4)
        }));
        if root == parent {
            assert(path == TablePath::root()) by {
                assert(s.table_at(root, TablePath::root()) == Some(root));
            }
        }
        if s.table_at(root, q1).is_some() {
            let t3 = s.table_at(root, q1).unwrap();
            assert(s.is_table(root, t3));
            assert(t3 < s.frames());
            if q.depth >= 2 {
                assert(q2.proper());
                if t3 == parent {
                    assert(path == q1);
                }
                assert(s2.word(t3, q.i3) == (if t3 == parent && q.i3 == index {
                    raw_entry(table, EntryFlags::PRESENT | EntryFlags::WRITABLE)
                } else {
                    s.word(t3, q.i3)
                }));
                if s.table_at(root, q2).is_some() {
                    let t2 = s.table_at(root, q2).unwrap();
                    assert(s.is_table(root, t2));
                    assert(t2 < s.frames());
                    if q.depth >= 3 {
                        if t2 == parent {
                            assert(path == q2);
                        }
                        assert(s2.word(t2, q.i2) == (if t2 == parent && q.i2 == index {
                            raw_entry(table, EntryFlags::PRESENT | EntryFlags::WRITABLE)
                        } else {
                            s.word(t2, q.i2)
                        }));
                    }
                }
            }
        }
        if q1 == path.push(index) {
            assert(s2.table_at(root, q1) == Some(table));
        }
        if q.depth >= 2 && q2 == path.push(index) {
            assert(s2.table_at(root, q2) == Some(table));
        }
    }
}

/// The words of the state after a fresh table has been put in.
pub proof fn lemma_with_table_words(s: MachineState, parent: nat, index: nat, table: nat)
    requires
        s.wf(),
        parent < s.frames(),
        table < s.frames(),
        index < 512,
        parent != table,
    ensures
        s.with_table(parent, index, table).wf(),
        s.with_table(parent, index, table).frames() == s.frames(),
        s.with_table(parent, index, table).cr3 == s.cr3,
        forall|f: nat, i: nat|
            f < s.frames() && i < 512 ==> #[trigger] s.with_table(parent, index, table).word(f, i)
                == (if f == table {
                0u64
            } else if f == parent && i == index {
                raw_entry(table, EntryFlags::PRESENT | EntryFlags::WRITABLE)
            } else {
                s.word(f, i)
            }),
        forall|f: int|
            0 <= f < s.frames() && f != parent && f != table ==> #[trigger] s.with_table(
                parent,
                index,
                table,
            ).mem[f] == s.mem[f],
{
}

/// Putting a fresh table behind an absent entry keeps the hierarchy in
/// order. The new table joins the tables; no other path changes; and no
/// page outside the recursive window is translated otherwise than before.
pub proof fn lemma_with_table(s: MachineState, path: TablePath, index: nat, table: nat)
    requires
        s.hierarchy_ok(),
        path.proper(),
        path.depth < 3,
        index < 512,
        path.push(index).proper(),
        s.table_at(s.root().unwrap(), path).is_some(),
        !raw_present(s.word(s.table_at(s.root().unwrap(), path).unwrap(), index)),
        table < s.frames(),
        table < ENTRY_FRAME_LIMIT,
        table != s.cr3,
        !s.is_table(s.root().unwrap(), table),
    ensures
        ({
            let root = s.root().unwrap();
            let s2 = s.with_table(s.table_at(root, path).unwrap(), index, table);
            &&& s2.hierarchy_ok()
            &&& s2.root() == s.root()
            &&& s2.cr3 == s.cr3
            &&& s2.frames() == s.frames()
            &&& forall|q: TablePath|
                q.proper() ==> #[trigger] s2.table_at(root, q) == (if q == path.push(index) {
                    Some(table)
                } else {
                    s.table_at(root, q)
                })
            &&& forall|x: nat| #[trigger] s2.is_table(root, x)
                <==> s.is_table(root, x) || x == table
        }),
{
    reveal(MachineState::tables_apart);
    let root = s.root().unwrap();
    let parent = s.table_at(root, path).unwrap();
    let s2 = s.with_table(parent, index, table);
    lemma_table_flags();
    lemma_raw_entry(table, EntryFlags::PRESENT | EntryFlags::WRITABLE);
    lemma_raw_frame_bounded(0);
    assert(s.is_table(root, parent));
    assert(s.is_table(root, root)) by {
        assert(TablePath::root().proper());
        assert(s.table_at(root, TablePath::root()) == Some(root));
    }
    lemma_with_table_words(s, parent, index, table);
    assert forall|q: TablePath| q.proper() implies #[trigger] s2.table_at(root, q) == (if q
        == path.push(index) {
        Some(table)
    } else {
        s.table_at(root, q)
    }) by {
        lemma_with_table_path(s, root, path, index, table, q);
    }
    // The recursive entries are where they were.
    assert(s2.word(root, 511) == s.word(root, 511)) by {
        if root == parent {
            assert(path == TablePath::root());
        }
    }
    assert(s2.word(s.cr3, 511) == s.word(s.cr3, 511)) by {
        if s.cr3 == parent {
            assert(s.cr3 == root);
        }
    }
    assert(s2.root() == s.root());
    assert(s2.tree(root)) by {
        assert forall|q: TablePath| q.proper()
            && (#[trigger] s2.table_at(root, q)).is_some() implies s2.table_at(
            root,
            q,
        ).unwrap() < s2.frames() by {}
        assert forall|p: TablePath, q: TablePath|
            p.proper() && q.proper() && (#[trigger] s2.table_at(root, p)).is_some() && s2.table_at(
                root,
                p,
            ) == (#[trigger] s2.table_at(root, q)) implies p == q by {
            if p != path.push(index) {
                assert(s.is_table(root, s.table_at(root, p).unwrap()));
            }
            if q != path.push(index) {
                assert(s.is_table(root, s.table_at(root, q).unwrap()));
            }
        }
    }
    assert forall|x: nat| #[trigger] s2.is_table(root, x) <==> s.is_table(root, x) || x
        == table by {
        if s2.is_table(root, x) {
            let q = choose|q: TablePath| q.proper() && #[trigger] s2.table_at(root, q) == Some(x);
            if q != path.push(index) {
                assert(s.table_at(root, q) == Some(x));
            }
        }
        if s.is_table(root, x) {
            let q = choose|q: TablePath| q.proper() && #[trigger] s.table_at(root, q) == Some(x);
            assert(q != path.push(index));
            assert(s2.table_at(root, q) == Some(x));
        }
        if x == table {
            assert(s2.table_at(root, path.push(index)) == Some(x));
        }
    }
}

/// Whether two page numbers have the same four table indices, so that the
/// same level-1 entry maps both.
pub open spec fn same_slot(a: nat, b: nat) -> bool {
    &&& p4_index_of(a) == p4_index_of(b)
    &&& p3_index_of(a) == p3_index_of(b)
    &&& p2_index_of(a) == p2_index_of(b)
    &&& p1_index_of(a) == p1_index_of(b)
}

/// Putting a fresh table behind an absent entry changes the translation of
/// no page outside the recursive window; the level-1 entries of the new
/// table, where it is one, are unused.
pub proof fn lemma_with_table_translate(
    s: MachineState,
    path: TablePath,
    index: nat,
    table: nat,
    page: nat,
)
    requires
        s.hierarchy_ok(),
        path.proper(),
        path.depth < 3,
        index < 512,
        path.push(index).proper(),
        s.table_at(s.root().unwrap(), path).is_some(),
        !raw_present(s.word(s.table_at(s.root().unwrap(), path).unwrap(), index)),
        table < s.frames(),
        table < ENTRY_FRAME_LIMIT,
        table != s.cr3,
        !s.is_table(s.root().unwrap(), table),
        p4_index_of(page) != 511,
    ensures
        ({
            let root = s.root().unwrap();
            let s2 = s.with_table(s.table_at(root, path).unwrap(), index, table);
            &&& s2.translate_from(root, page) == s.translate_from(root, page)
            &&& s2.leaf(root, page) == (if TablePath::of_page(page) == path.push(index) {
                Some(0u64)
            } else {
                s.leaf(root, page)
            })
            &&& s.path_clear(root, page) ==> s2.path_clear(root, page)
        }),
{
    reveal(MachineState::tables_apart);
    let root = s.root().unwrap();
    let parent = s.table_at(root, path).unwrap();
    let s2 = s.with_table(parent, index, table);
    lemma_with_table(s, path, index, table);
    lemma_table_flags();
    lemma_raw_entry(table, EntryFlags::PRESENT | EntryFlags::WRITABLE);
    lemma_raw_frame_bounded(0);
    assert(s.is_table(root, parent));
    lemma_with_table_words(s, parent, index, table);
    let q3 = TablePath::of_page(page);
    let q1 = q3.prefix(1);
    let q2 = q3.prefix(2);
    assert(q1.proper() && q2.proper() && q3.proper());
    assert(TablePath::root().proper());
    assert(s.table_at(root, TablePath::root()) == Some(root));
    assert(s2.table_at(root, q1) == (if q1 == path.push(index) {
        Some(table)
    } else {
        s.table_at(root, q1)
    }));
    assert(s2.table_at(root, q2) == (if q2 == path.push(index) {
        Some(table)
    } else {
        s.table_at(root, q2)
    }));
    assert(s2.table_at(root, q3) == (if q3 == path.push(index) {
        Some(table)
    } else {
        s.table_at(root, q3)
    }));
    if root == parent {
        assert(path == TablePath::root());
    }
    if s.table_at(root, q1).is_some() {
        let t3 = s.table_at(root, q1).unwrap();
        assert(s.is_table(root, t3));
        if t3 == parent {
            assert(path == q1);
        }
        if s.table_at(root, q2).is_some() {
            let t2 = s.table_at(root, q2).unwrap();
            assert(s.is_table(root, t2));
            if t2 == parent {
                assert(path == q2);
            }
            if s.table_at(root, q3).is_some() {
                let t1 = s.table_at(root, q3).unwrap();
                assert(s.is_table(root, t1));
                if t1 == parent {
                    assert(path == q3);
                }
            }
        }
    }
}

/// Writing the level-1 entry of a page keeps the hierarchy in order and
/// changes the translation of that page alone, among the pages outside the
/// recursive window.
pub proof fn lemma_write_leaf(s: MachineState, page: nat, value: u64)
    requires
        s.hierarchy_ok(),
        p4_index_of(page) != 511,
        s.table_at(s.root().unwrap(), TablePath::of_page(page)).is_some(),
    ensures
        ({
            let root = s.root().unwrap();
            let t1 = s.table_at(root, TablePath::of_page(page)).unwrap();
            let s2 = s.write(t1, p1_index_of(page), value);
            &&& s2.hierarchy_ok()
            &&& s2.root() == s.root()
            &&& s2.cr3 == s.cr3
            &&& s2.frames() == s.frames()
            &&& s2.word(s.cr3, 511) == s.word(s.cr3, 511)
            &&& forall|q: TablePath| q.proper()
                ==> #[trigger] s2.table_at(root, q) == s.table_at(root, q)
            &&& forall|x: nat| #[trigger] s2.is_table(root, x) <==> s.is_table(root, x)
            &&& s2.leaf(root, page) == Some(value)
            &&& s2.translate_from(root, page) == (if raw_present(value) {
                Some(raw_frame(value))
            } else {
                None
            })
            &&& forall|other: nat|
                p4_index_of(other) != 511 && !same_slot(other, page)
                    ==> #[trigger] s2.translate_from(
                    root,
                    other,
                ) == s.translate_from(root, other)
            &&& forall|other: nat|
                p4_index_of(other) != 511 && !same_slot(other, page) ==> #[trigger] s2.leaf(
                    root,
                    other,
                ) == s.leaf(root, other)
            &&& forall|other: nat|
                p4_index_of(other) != 511 && !same_slot(other, page) ==> #[trigger] s2.path_clear(
                    root,
                    other,
                ) == s.path_clear(root, other)
        }),
{
    reveal(MachineState::tables_apart);
    let root = s.root().unwrap();
    let path = TablePath::of_page(page);
    let t1 = s.table_at(root, path).unwrap();
    let i1 = p1_index_of(page);
    let s2 = s.write(t1, i1, value);
    assert(path.proper());
    assert(s.is_table(root, t1));
    assert(TablePath::root().proper());
    assert(s.table_at(root, TablePath::root()) == Some(root));
    assert(t1 != root);
    assert(t1 != s.cr3);
    assert(s2.wf());
    assert forall|f: nat, i: nat| f < s.frames() && i < 512 implies #[trigger] s2.word(f, i) == (
    if f == t1 && i == i1 {
        value
    } else {
        s.word(f, i)
    }) by {}
    assert forall|q: TablePath| q.proper() implies #[trigger] s2.table_at(root, q) == s.table_at(
        root,
        q,
    ) by {
        lemma_write_leaf_path(s, page, value, q);
    }
    assert(s2.root() == s.root());
    assert(s2.tree(root));
    assert forall|x: nat| #[trigger] s2.is_table(root, x) <==> s.is_table(root, x) by {
        if s2.is_table(root, x) {
            let q = choose|q: TablePath| q.proper() && #[trigger] s2.table_at(root, q) == Some(x);
            assert(s.table_at(root, q) == Some(x));
        }
        if s.is_table(root, x) {
            let q = choose|q: TablePath| q.proper() && #[trigger] s.table_at(root, q) == Some(x);
            assert(s2.table_at(root, q) == Some(x));
        }
    }
    lemma_write_leaf_page(s, page, value, page);
    assert forall|other: nat|
        p4_index_of(other) != 511 && !same_slot(other, page) implies #[trigger] s2.translate_from(
        root,
        other,
    ) == s.translate_from(root, other) by {
        lemma_write_leaf_page(s, page, value, other);
    }
    assert forall|other: nat|
        p4_index_of(other) != 511 && !same_slot(other, page) implies #[trigger] s2.leaf(root, other)
        == s.leaf(root, other) by {
        lemma_write_leaf_page(s, page, value, other);
    }
    assert forall|other: nat|
        p4_index_of(other) != 511 && !same_slot(other, page) implies #[trigger] s2.path_clear(
        root,
        other,
    ) == s.path_clear(root, other) by {
        lemma_write_leaf_page(s, page, value, other);
    }
}

/// Writing a level-1 entry changes what no path reaches.
proof fn lemma_write_leaf_path(s: MachineState, page: nat, value: u64, q: TablePath)
    requires
        s.hierarchy_ok(),
        p4_index_of(page) != 511,
        s.table_at(s.root().unwrap(), TablePath::of_page(page)).is_some(),
        q.proper(),
    ensures
        s.write(
            s.table_at(s.root().unwrap(), TablePath::of_page(page)).unwrap(),
            p1_index_of(page),
            value,
        ).table_at(s.root().unwrap(), q) == s.table_at(s.root().unwrap(), q),
{
    reveal(MachineState::tables_apart);
    let root = s.root().unwrap();
    let path = TablePath::of_page(page);
    let t1 = s.table_at(root, path).unwrap();
    let s2 = s.write(t1, p1_index_of(page), value);
    assert(path.proper());
    assert(TablePath::root().proper());
    assert(s.table_at(root, TablePath::root()) == Some(root));
    assert(t1 != root);
    let q1 = q.prefix(1);
    let q2 = q.prefix(2);
    if q.depth >= 1 {
        assert(q1.proper());
        assert(s2.word(root, q.i4) == s.word(root, q.i4));
        if s.table_at(root, q1).is_some() && q.depth >= 2 {
            let t3 = s.table_at(root, q1).unwrap();
            assert(q2.proper());
            assert(t3 != t1);
            assert(s2.word(t3, q.i3) == s.word(t3, q.i3));
            if s.table_at(root, q2).is_some() && q.depth >= 3 {
                let t2 = s.table_at(root, q2).unwrap();
                assert(t2 != t1);
                assert(s2.word(t2, q.i2) == s.word(t2, q.i2));
            }
        }
    }
}

/// What writing the level-1 entry of `page` does to the translation of the
/// page `other`.
proof fn lemma_write_leaf_page(s: MachineState, page: nat, value: u64, other: nat)
    requires
        s.hierarchy_ok(),
        p4_index_of(page) != 511,
        s.table_at(s.root().unwrap(), TablePath::of_page(page)).is_some(),
        p4_index_of(other) != 511,
    ensures
        ({
            let root = s.root().unwrap();
            let t1 = s.table_at(root, TablePath::of_page(page)).unwrap();
            let s2 = s.write(t1, p1_index_of(page), value);
            &&& same_slot(other, page) ==> s2.leaf(root, other) == Some(value) && s2.translate_from(
                root,
                other,
            ) == (if raw_present(value) {
                Some(raw_frame(value))
            } else {
                None
            })
            &&& !same_slot(other, page) ==> s2.translate_from(root, other) == s.translate_from(
                root,
                other,
            ) && s2.leaf(root, other) == s.leaf(root, other) && s2.path_clear(root, other)
                == s.path_clear(root, other)
        }),
{
    reveal(MachineState::tables_apart);
    let root = s.root().unwrap();
    let path = TablePath::of_page(page);
    let t1 = s.table_at(root, path).unwrap();
    let i1 = p1_index_of(page);
    let s2 = s.write(t1, i1, value);
    let q3 = TablePath::of_page(other);
    let q1 = q3.prefix(1);
    let q2 = q3.prefix(2);
    assert(path.proper() && q1.proper() && q2.proper() && q3.proper());
    assert(TablePath::root().proper());
    assert(s.table_at(root, TablePath::root()) == Some(root));
    assert(s.is_table(root, t1));
    assert(t1 < s.frames());
    lemma_write_leaf_path(s, page, value, q1);
    lemma_write_leaf_path(s, page, value, q2);
    lemma_write_leaf_path(s, page, value, q3);
    assert(t1 != root);
    assert(s2.word(root, q3.i4) == s.word(root, q3.i4));
    if s.table_at(root, q1).is_some() {
        let t3 = s.table_at(root, q1).unwrap();
        assert(t3 != t1);
        assert(t3 < s.frames());
        assert(s2.word(t3, q3.i3) == s.word(t3, q3.i3));
        if s.table_at(root, q2).is_some() {
            let t2 = s.table_at(root, q2).unwrap();
            assert(t2 != t1);
            assert(t2 < s.frames());
            assert(s2.word(t2, q3.i2) == s.word(t2, q3.i2));
            if s.table_at(root, q3).is_some() {
                let u1 = s.table_at(root, q3).unwrap();
                assert(u1 < s.frames());
                if u1 == t1 {
                    assert(q3 == path);
                }
                if !same_slot(other, page) {
                    assert(s2.word(u1, p1_index_of(other)) == s.word(u1, p1_index_of(other)));
                } else {
                    assert(q3 == path);
                    assert(s2.word(u1, p1_index_of(other)) == value);
                }
            }
        }
    }
}

impl MachineState {
    /// Every frame of the pool can become a table of the hierarchy: it lies
    /// in memory, fits into an entry, and is neither a table so far nor the
    /// active level-4 table.
    pub open spec fn pool_fresh(self, pool: Set<nat>) -> bool {
        forall|n: nat| #[trigger]
            pool.contains(n) ==> n < self.frames() && n < ENTRY_FRAME_LIMIT && n != self.cr3
                && !self.is_table(self.root().unwrap(), n)
    }
}

/// Between the write of the entry that leads to a new table and the clearing
/// of that table, the recursive window already shows the new table, and the
/// processor reaches it without reading a word of it.
pub proof fn lemma_link_table(s: MachineState, path: TablePath, index: nat, table: nat)
    requires
        s.hierarchy_ok(),
        path.proper(),
        path.depth < 3,
        index < 512,
        path.push(index).proper(),
        s.table_at(s.root().unwrap(), path).is_some(),
        !raw_present(s.word(s.table_at(s.root().unwrap(), path).unwrap(), index)),
        table < s.frames(),
        table < ENTRY_FRAME_LIMIT,
        table != s.cr3,
        !s.is_table(s.root().unwrap(), table),
    ensures
        ({
            let root = s.root().unwrap();
            let parent = s.table_at(root, path).unwrap();
            let s1 = s.write(
                parent,
                index,
                raw_entry(table, EntryFlags::PRESENT | EntryFlags::WRITABLE),
            );
            &&& s1.recursive()
            &&& s1.root() == s.root()
            &&& s1.table_at(root, path) == Some(parent)
            &&& s1.table_at(root, path.push(index)) == Some(table)
            &&& s1.resolve_page(path.push(index).token_page()) == Some(table)
            &&& !s1.walk_reads(s1.cr3, path.push(index).token_page(), table)
            &&& s1.clear_frame(table) == s.with_table(parent, index, table)
        }),
{
    reveal(MachineState::tables_apart);
    let root = s.root().unwrap();
    let parent = s.table_at(root, path).unwrap();
    let s1 = s.write(parent, index, raw_entry(table, EntryFlags::PRESENT | EntryFlags::WRITABLE));
    lemma_table_flags();
    lemma_raw_entry(table, EntryFlags::PRESENT | EntryFlags::WRITABLE);
    assert(s.is_table(root, parent));
    assert(TablePath::root().proper());
    assert(s.table_at(root, TablePath::root()) == Some(root));
    assert(s.is_table(root, root));
    assert forall|f: nat, i: nat| f < s.frames() && i < 512 implies #[trigger] s1.word(f, i) == (
    if f == parent && i == index {
        raw_entry(table, EntryFlags::PRESENT | EntryFlags::WRITABLE)
    } else {
        s.word(f, i)
    }) by {}
    if root == parent {
        assert(path == TablePath::root());
    }
    if s.cr3 == parent {
        assert(s.cr3 == root);
    }
    assert(s1.word(root, 511) == s.word(root, 511));
    assert(s1.word(s.cr3, 511) == s.word(s.cr3, 511));
    let p1 = path.prefix(1);
    let p2 = path.prefix(2);
    if path.depth >= 1 {
        assert(p1.proper());
        let t3 = s.table_at(root, p1).unwrap();
        assert(s.is_table(root, t3));
        assert(s1.word(root, path.i4) == s.word(root, path.i4));
        if path.depth >= 2 {
            assert(p2.proper());
            let t2 = s.table_at(root, p2).unwrap();
            assert(s.is_table(root, t2));
            if t3 == parent {
                assert(p1 == path);
            }
            assert(s1.word(t3, path.i3) == s.word(t3, path.i3));
        }
    }
    assert(s1.table_at(root, path) == Some(parent));
    assert(s1.table_at(root, path.push(index)) == Some(table));
    lemma_token_page_indices(path.push(index));
    lemma_token_resolves(s1, path.push(index));
}

impl MachineState {
    /// Where a huge page maps the page with the given number, the huge
    /// page's first frame is aligned to the huge page's size.
    pub open spec fn huge_aligned(self, root: nat, page: nat) -> bool {
        match self.child(root, p4_index_of(page)) {
            None => true,
            Some(t3) => t3 < self.frames() && raw_present(self.word(t3, p3_index_of(page))) ==> {
                let e3 = self.word(t3, p3_index_of(page));
                if raw_huge(e3) {
                    raw_frame(e3) % 0x4_0000 == 0
                } else {
                    let t2 = raw_frame(e3);
                    t2 < self.frames() && raw_present(self.word(t2, p2_index_of(page)))
                        && raw_huge(self.word(t2, p2_index_of(page))) ==> raw_frame(
                        self.word(t2, p2_index_of(page)),
                    ) % 512 == 0
                }
            },
        }
    }
}

/// A level-4 table that holds its recursive entry and no other present
/// entry is the root of a tree whose only table it is.
pub proof fn lemma_lone_root(s: MachineState, root: nat)
    requires
        s.wf(),
        root < s.frames(),
        s.child(root, 511) == Some(root),
        s.word(root, 511) == raw_entry(root, EntryFlags::PRESENT | EntryFlags::WRITABLE),
        forall|i: nat| i < 512 && i != 511 ==> !raw_present(#[trigger] s.word(root, i)),
    ensures
        s.tree(root),
        forall|x: nat| #[trigger] s.is_table(root, x) <==> x == root,
        forall|page: nat| p4_index_of(page) != 511
            ==> #[trigger] s.translate_from(root, page) == None::<nat>,
{
    reveal(MachineState::tables_apart);
    assert forall|path: TablePath| path.proper()
        && (#[trigger] s.table_at(root, path)).is_some() implies path
        == TablePath::root() by {
        if path.depth >= 1 {
            assert(!raw_present(s.word(root, path.i4)));
        }
    }
    assert forall|x: nat| #[trigger] s.is_table(root, x) <==> x == root by {
        if x == root {
            assert(TablePath::root().proper());
            assert(s.table_at(root, TablePath::root()) == Some(root));
        }
    }
    assert forall|page: nat| p4_index_of(page) != 511 implies #[trigger] s.translate_from(
        root,
        page,
    ) == None::<nat> by {
        assert(!raw_present(s.word(root, p4_index_of(page))));
    }
}

impl MachineState {
    /// Number of tables that are missing on the way to the level-1 entry of
    /// the page with the given number.
    pub open spec fn missing_tables(self, root: nat, page: nat) -> nat {
        let path = TablePath::of_page(page);
        if self.table_at(root, path.prefix(1)).is_none() {
            3
        } else if self.table_at(root, path.prefix(2)).is_none() {
            2
        } else if self.table_at(root, path).is_none() {
            1
        } else {
            0
        }
    }

    /// The way to the level-1 entry of the page with the given number is
    /// free: no entry on it maps a huge page, and the level-1 entry itself,
    /// where its table exists, is unused.
    pub open spec fn path_clear(self, root: nat, page: nat) -> bool {
        let path = TablePath::of_page(page);
        &&& !raw_huge(self.word(root, path.i4))
        &&& self.table_at(root, path.prefix(1)).is_some() ==> !raw_huge(
            self.word(self.table_at(root, path.prefix(1)).unwrap(), path.i3),
        )
        &&& self.table_at(root, path.prefix(2)).is_some() ==> !raw_huge(
            self.word(self.table_at(root, path.prefix(2)).unwrap(), path.i2),
        )
        &&& self.table_at(root, path).is_some() ==> self.word(
            self.table_at(root, path).unwrap(),
            p1_index_of(page),
        ) == 0
    }

    /// A page can be mapped with frames for new tables from the pool: the
    /// way to its level-1 entry is free, and where tables are missing the
    /// pool holds enough frames, all of them fit to become tables.
    pub open spec fn can_map(self, page: nat, pool: Set<nat>) -> bool {
        &&& p4_index_of(page) != 511
        &&& self.path_clear(self.root().unwrap(), page)
        &&& self.missing_tables(self.root().unwrap(), page) > 0 ==> pool.finite() && pool.len()
            >= self.missing_tables(self.root().unwrap(), page) && self.pool_fresh(pool)
    }
}

impl MachineState {
    /// This state has come from `before` by edits of the hierarchy that
    /// took the frames for new tables from a pool: the hierarchy is in order
    /// as it was, its tables are the former ones and the frames that have
    /// left the pool, and no frame has changed but tables and frames of the
    /// pool.
    #[verifier::opaque]
    pub open spec fn edited_from(
        self,
        before: MachineState,
        pool_before: Set<nat>,
        pool_after: Set<nat>,
    ) -> bool {
        &&& self.hierarchy_ok()
        &&& self.root() == before.root()
        &&& self.cr3 == before.cr3
        &&& self.frames() == before.frames()
        &&& self.word(self.cr3, 511) == before.word(before.cr3, 511)
        &&& pool_after.subset_of(pool_before)
        &&& forall|x: nat| #[trigger]
            self.is_table(self.root().unwrap(), x) <==> before.is_table(before.root().unwrap(), x)
                || (pool_before.contains(x) && !pool_after.contains(x))
        &&& forall|f: int|
            0 <= f < self.frames() && !before.is_table(before.root().unwrap(), f as nat)
                && !pool_before.contains(f as nat) ==> #[trigger] self.mem[f] == before.mem[f]
    }

    /// This state has come from `before` by edits of the hierarchy that
    /// left alone, outside the recursive window, every page but those of
    /// the slot of `page`: such a page is translated as before, its level-1
    /// entry is what it was, and where the way to its level-1 entry was
    /// free it still is.
    #[verifier::opaque]
    pub open spec fn grown_from(
        self,
        before: MachineState,
        page: nat,
        pool_before: Set<nat>,
        pool_after: Set<nat>,
    ) -> bool {
        &&& self.edited_from(before, pool_before, pool_after)
        &&& forall|other: nat|
            p4_index_of(other) != 511 && !same_slot(other, page) ==> #[trigger] self.translate_from(
                before.root().unwrap(),
                other,
            ) == before.translate_from(before.root().unwrap(), other)
        &&& forall|other: nat|
            p4_index_of(other) != 511 && !same_slot(other, page) && before.leaf(
                before.root().unwrap(),
                other,
            ).is_some() ==> #[trigger] self.leaf(before.root().unwrap(), other) == before.leaf(
                before.root().unwrap(),
                other,
            )
        &&& forall|other: nat|
            p4_index_of(other) != 511 && !same_slot(other, page) && before.path_clear(
                before.root().unwrap(),
                other,
            ) ==> #[trigger] self.path_clear(before.root().unwrap(), other)
        &&& forall|q: TablePath|
            q.proper() ==> ((#[trigger] self.table_at(before.root().unwrap(), q)).is_some()
                <==> before.table_at(before.root().unwrap(), q).is_some() || (q
                == TablePath::of_page(page).prefix(q.depth) && self.table_at(
                before.root().unwrap(),
                q,
            ).is_some()))
    }
}

/// A state has come from itself.
pub proof fn lemma_grown_same(s: MachineState, page: nat, pool: Set<nat>)
    requires
        s.hierarchy_ok(),
    ensures
        s.grown_from(s, page, pool, pool),
{
    reveal(MachineState::grown_from);
    reveal(MachineState::edited_from);
}

/// What has come from a state that has come from another has come from that
/// other.
pub proof fn lemma_grown_further(
    s0: MachineState,
    s1: MachineState,
    s2: MachineState,
    page: nat,
    pool0: Set<nat>,
    pool1: Set<nat>,
    pool2: Set<nat>,
)
    requires
        s1.grown_from(s0, page, pool0, pool1),
        s2.grown_from(s1, page, pool1, pool2),
    ensures
        s2.grown_from(s0, page, pool0, pool2),
{
    reveal(MachineState::grown_from);
    reveal(MachineState::edited_from);
    lemma_edited_further(s0, s1, s2, pool0, pool1, pool2);
    lemma_edited_means(s1, s0, pool0, pool1);
    lemma_edited_means(s2, s1, pool1, pool2);
    let root = s0.root().unwrap();
    assert forall|other: nat|
        p4_index_of(other) != 511 && !same_slot(other, page) implies #[trigger] s2.translate_from(
        root,
        other,
    ) == s0.translate_from(root, other) by {
        assert(s1.translate_from(root, other) == s0.translate_from(root, other));
    }
    assert forall|other: nat|
        p4_index_of(other) != 511 && !same_slot(other, page)
            && s0.leaf(root, other).is_some() implies #[trigger] s2.leaf(
        root,
        other,
    ) == s0.leaf(root, other) by {
        assert(s1.leaf(root, other) == s0.leaf(root, other));
    }
    assert forall|other: nat|
        p4_index_of(other) != 511 && !same_slot(other, page) && s0.path_clear(
            root,
            other,
        ) implies #[trigger] s2.path_clear(root, other) by {
        assert(s1.path_clear(root, other));
    }
    assert forall|q: TablePath| q.proper() implies ((#[trigger] s2.table_at(root, q)).is_some()
        <==> s0.table_at(root, q).is_some() || (q == TablePath::of_page(page).prefix(q.depth)
        && s2.table_at(root, q).is_some())) by {
        assert(s1.table_at(root, q).is_some() <==> s0.table_at(root, q).is_some() || (q
            == TablePath::of_page(page).prefix(q.depth) && s1.table_at(root, q).is_some()));
    }
}

/// Putting a fresh table of the pool behind an absent entry makes a state
/// that has come from the one before, and leaves the rest of the pool fit
/// for further tables.
pub proof fn lemma_grown_by_table(
    s: MachineState,
    path: TablePath,
    index: nat,
    table: nat,
    page: nat,
    pool: Set<nat>,
)
    requires
        s.hierarchy_ok(),
        path.proper(),
        path.depth < 3,
        index < 512,
        path.push(index).proper(),
        s.table_at(s.root().unwrap(), path).is_some(),
        !raw_present(s.word(s.table_at(s.root().unwrap(), path).unwrap(), index)),
        s.pool_fresh(pool),
        pool.contains(table),
        path.push(index) == TablePath::of_page(page).prefix(path.depth + 1),
    ensures
        ({
            let s2 = s.with_table(s.table_at(s.root().unwrap(), path).unwrap(), index, table);
            &&& s2.grown_from(s, page, pool, pool.remove(table))
            &&& s2.pool_fresh(pool.remove(table))
            &&& forall|other: nat|
                p4_index_of(other) != 511 ==> #[trigger] s2.translate_from(
                    s.root().unwrap(),
                    other,
                ) == s.translate_from(s.root().unwrap(), other)
        }),
{
    reveal(MachineState::grown_from);
    reveal(MachineState::edited_from);
    let root = s.root().unwrap();
    let parent = s.table_at(root, path).unwrap();
    let s2 = s.with_table(parent, index, table);
    lemma_with_table(s, path, index, table);
    assert(s.is_table(root, parent));
    lemma_table_in_memory(s, root, path);
    lemma_with_table_words(s, parent, index, table);
    assert forall|other: nat| p4_index_of(other) != 511 implies #[trigger] s2.translate_from(
        root,
        other,
    ) == s.translate_from(root, other) by {
        lemma_with_table_translate(s, path, index, table, other);
    }
    assert forall|other: nat|
        p4_index_of(other) != 511 && s.leaf(root, other).is_some() implies #[trigger] s2.leaf(
        root,
        other,
    ) == s.leaf(root, other) by {
        lemma_with_table_translate(s, path, index, table, other);
    }
    assert forall|other: nat|
        p4_index_of(other) != 511 && s.path_clear(root, other) implies #[trigger] s2.path_clear(
        root,
        other,
    ) by {
        lemma_with_table_translate(s, path, index, table, other);
    }
}

/// Writing the level-1 entry of a page makes a state that has come from the
/// one before and in which the page is translated as the entry says.
pub proof fn lemma_grown_by_leaf(s: MachineState, page: nat, value: u64, pool: Set<nat>)
    requires
        s.hierarchy_ok(),
        p4_index_of(page) != 511,
        s.table_at(s.root().unwrap(), TablePath::of_page(page)).is_some(),
    ensures
        ({
            let root = s.root().unwrap();
            let t1 = s.table_at(root, TablePath::of_page(page)).unwrap();
            let s2 = s.write(t1, p1_index_of(page), value);
            &&& s2.grown_from(s, page, pool, pool)
            &&& s.pool_fresh(pool) ==> s2.pool_fresh(pool)
            &&& s2.leaf(root, page) == Some(value)
            &&& s2.translate_from(root, page) == (if raw_present(value) {
                Some(raw_frame(value))
            } else {
                None
            })
        }),
{
    reveal(MachineState::grown_from);
    reveal(MachineState::edited_from);
    let root = s.root().unwrap();
    let t1 = s.table_at(root, TablePath::of_page(page)).unwrap();
    let s2 = s.write(t1, p1_index_of(page), value);
    lemma_write_leaf(s, page, value);
    assert(TablePath::of_page(page).proper());
    assert(s.is_table(root, t1));
    lemma_table_in_memory(s, root, TablePath::of_page(page));
    assert forall|f: int|
        0 <= f < s2.frames() && !s.is_table(root, f as nat) implies #[trigger] s2.mem[f]
        == s.mem[f] by {}
    assert(s2.root() == Some(root));
    assert forall|other: nat|
        p4_index_of(other) != 511 && !same_slot(other, page) implies #[trigger] s2.leaf(
        s2.root().unwrap(),
        other,
    ) == s.leaf(root, other) by {
        assert(s2.leaf(root, other) == s.leaf(root, other));
    }
}

/// What it means that a state has come from another by edits.
pub proof fn lemma_edited_means(
    s: MachineState,
    before: MachineState,
    pool_before: Set<nat>,
    pool_after: Set<nat>,
)
    requires
        s.edited_from(before, pool_before, pool_after),
    ensures
        s.hierarchy_ok(),
        s.root() == before.root(),
        s.cr3 == before.cr3,
        s.frames() == before.frames(),
        s.word(s.cr3, 511) == before.word(before.cr3, 511),
        pool_after.subset_of(pool_before),
        forall|x: nat| #[trigger]
            s.is_table(s.root().unwrap(), x) <==> before.is_table(before.root().unwrap(), x) || (
            pool_before.contains(x) && !pool_after.contains(x)),
        forall|f: int|
            0 <= f < s.frames() && !before.is_table(before.root().unwrap(), f as nat)
                && !pool_before.contains(f as nat) ==> #[trigger] s.mem[f] == before.mem[f],
{
    reveal(MachineState::edited_from);
}

/// What it means that a state has come from another.
pub proof fn lemma_grown_means(
    s: MachineState,
    before: MachineState,
    page: nat,
    pool_before: Set<nat>,
    pool_after: Set<nat>,
)
    requires
        s.grown_from(before, page, pool_before, pool_after),
    ensures
        s.edited_from(before, pool_before, pool_after),
        s.hierarchy_ok(),
        s.root() == before.root(),
        s.cr3 == before.cr3,
        s.frames() == before.frames(),
        s.word(s.cr3, 511) == before.word(before.cr3, 511),
        pool_after.subset_of(pool_before),
        forall|x: nat| #[trigger]
            s.is_table(s.root().unwrap(), x) <==> before.is_table(before.root().unwrap(), x) || (
            pool_before.contains(x) && !pool_after.contains(x)),
        forall|f: int|
            0 <= f < s.frames() && !before.is_table(before.root().unwrap(), f as nat)
                && !pool_before.contains(f as nat) ==> #[trigger] s.mem[f] == before.mem[f],
        forall|other: nat|
            p4_index_of(other) != 511 && !same_slot(other, page) ==> #[trigger] s.translate_from(
                s.root().unwrap(),
                other,
            ) == before.translate_from(before.root().unwrap(), other),
        forall|other: nat|
            p4_index_of(other) != 511 && !same_slot(other, page) && before.leaf(
                before.root().unwrap(),
                other,
            ).is_some() ==> #[trigger] s.leaf(s.root().unwrap(), other) == before.leaf(
                before.root().unwrap(),
                other,
            ),
        forall|other: nat|
            p4_index_of(other) != 511 && !same_slot(other, page) && before.path_clear(
                before.root().unwrap(),
                other,
            ) ==> #[trigger] s.path_clear(s.root().unwrap(), other),
        forall|q: TablePath|
            q.proper() ==> ((#[trigger] s.table_at(before.root().unwrap(), q)).is_some()
                <==> before.table_at(before.root().unwrap(), q).is_some() || (q
                == TablePath::of_page(page).prefix(q.depth) && s.table_at(
                before.root().unwrap(),
                q,
            ).is_some())),
{
    reveal(MachineState::grown_from);
    reveal(MachineState::edited_from);
}

/// Edits after edits are edits.
pub proof fn lemma_edited_further(
    s0: MachineState,
    s1: MachineState,
    s2: MachineState,
    pool0: Set<nat>,
    pool1: Set<nat>,
    pool2: Set<nat>,
)
    requires
        s1.edited_from(s0, pool0, pool1),
        s2.edited_from(s1, pool1, pool2),
    ensures
        s2.edited_from(s0, pool0, pool2),
{
    reveal(MachineState::edited_from);
    let root = s0.root().unwrap();
    assert forall|x: nat| #[trigger]
        s2.is_table(root, x) <==> s0.is_table(root, x) || (pool0.contains(x) && !pool2.contains(
            x,
        )) by {
        assert(s1.is_table(root, x) <==> s0.is_table(root, x) || (pool0.contains(x)
            && !pool1.contains(x)));
    }
    assert forall|f: int|
        0 <= f < s2.frames() && !s0.is_table(root, f as nat) && !pool0.contains(
            f as nat,
        ) implies #[trigger] s2.mem[f] == s0.mem[f] by {
        assert(s1.mem[f] == s0.mem[f]);
        assert(s1.is_table(root, f as nat) <==> s0.is_table(root, f as nat) || (pool0.contains(
            f as nat,
        ) && !pool1.contains(f as nat)));
        assert(s2.mem[f] == s1.mem[f]);
    }
}


/// A request to drop cached translations changes neither the hierarchy nor
/// what it translates.
pub proof fn lemma_flush_keeps(s: MachineState, request: TlbFlush)
    requires
        s.hierarchy_ok(),
    ensures
        s.flush(request).hierarchy_ok(),
        s.flush(request).root() == s.root(),
        forall|q: TablePath| #[trigger]
            s.flush(request).table_at(s.root().unwrap(), q) == s.table_at(s.root().unwrap(), q),
        forall|x: nat| #[trigger]
            s.flush(request).is_table(s.root().unwrap(), x) <==> s.is_table(s.root().unwrap(), x),
        forall|page: nat| #[trigger]
            s.flush(request).translate_from(s.root().unwrap(), page) == s.translate_from(
                s.root().unwrap(),
                page,
            ),
        forall|page: nat| #[trigger]
            s.flush(request).leaf(s.root().unwrap(), page) == s.leaf(s.root().unwrap(), page),
        forall|page: nat| #[trigger]
            s.flush(request).path_clear(s.root().unwrap(), page) == s.path_clear(
                s.root().unwrap(),
                page,
            ),
{
    reveal(MachineState::tables_apart);
    let s2 = s.flush(request);
    let root = s.root().unwrap();
    assert forall|q: TablePath| #[trigger] s2.table_at(root, q) == s.table_at(root, q) by {}
    assert forall|x: nat| #[trigger] s2.is_table(root, x) <==> s.is_table(root, x) by {
        if s2.is_table(root, x) {
            let q = choose|q: TablePath| q.proper() && #[trigger] s2.table_at(root, q) == Some(x);
            assert(s.table_at(root, q) == Some(x));
        }
        if s.is_table(root, x) {
            let q = choose|q: TablePath| q.proper() && #[trigger] s.table_at(root, q) == Some(x);
            assert(s2.table_at(root, q) == Some(x));
        }
    }
}

impl MachineState {
    /// A page can be mapped to a frame of the pool, with further frames of
    /// the pool for new tables: the way to its level-1 entry is free, the
    /// pool holds a frame for the page and one for each missing table, every
    /// frame of the pool fits into an entry, and where tables are missing
    /// every frame of the pool is fit to become a table.
    pub open spec fn can_map_new(self, page: nat, pool: Set<nat>) -> bool {
        &&& p4_index_of(page) != 511
        &&& self.path_clear(self.root().unwrap(), page)
        &&& pool.finite()
        &&& pool.len() > self.missing_tables(self.root().unwrap(), page)
        &&& forall|n: nat| #[trigger] pool.contains(n) ==> n < ENTRY_FRAME_LIMIT
        &&& self.missing_tables(self.root().unwrap(), page) > 0 ==> self.pool_fresh(pool)
    }

    /// The page is mapped by a level-1 entry.
    pub open spec fn mapped_small(self, page: nat) -> bool {
        &&& p4_index_of(page) != 511
        &&& self.leaf(self.root().unwrap(), page).is_some()
        &&& raw_present(self.leaf(self.root().unwrap(), page).unwrap())
    }
}

/// Two states that agree on every table of a tree agree on the tree, on
/// its tables and on what it translates.
pub proof fn lemma_same_tables(s: MachineState, s2: MachineState, root: nat)
    requires
        s.tree(root),
        s2.wf(),
        s2.frames() == s.frames(),
        forall|f: int|
            0 <= f < s.frames() && s.is_table(root, f as nat) && f != root ==> #[trigger] s2.mem[f]
                == s.mem[f],
        forall|i: int| 0 <= i < 512 && i != 511 ==> s2.mem[root as int][i] == s.mem[root as int][i],
    ensures
        s2.child(root, 511) == Some(root) && s2.word(root, 511) == raw_entry(
            root,
            EntryFlags::PRESENT | EntryFlags::WRITABLE,
        ) ==> s2.tree(root),
        forall|q: TablePath| q.proper() ==> #[trigger] s2.table_at(root, q) == s.table_at(root, q),
        forall|x: nat| #[trigger] s2.is_table(root, x) <==> s.is_table(root, x),
        forall|page: nat|
            p4_index_of(page) != 511 ==> #[trigger] s2.translate_from(root, page)
                == s.translate_from(root, page),
        forall|page: nat|
            p4_index_of(page) != 511 ==> #[trigger] s2.leaf(root, page) == s.leaf(root, page),
        forall|page: nat|
            p4_index_of(page) != 511 ==> #[trigger] s2.path_clear(root, page) == s.path_clear(
                root,
                page,
            ),
{
    reveal(MachineState::tables_apart);
    assert(TablePath::root().proper());
    assert(s.table_at(root, TablePath::root()) == Some(root));
    assert forall|q: TablePath| q.proper() implies #[trigger] s2.table_at(root, q) == s.table_at(
        root,
        q,
    ) by {
        lemma_same_tables_path(s, s2, root, q);
    }
    assert forall|x: nat| #[trigger] s2.is_table(root, x) <==> s.is_table(root, x) by {
        if s2.is_table(root, x) {
            let q = choose|q: TablePath| q.proper() && #[trigger] s2.table_at(root, q) == Some(x);
            assert(s.table_at(root, q) == Some(x));
        }
        if s.is_table(root, x) {
            let q = choose|q: TablePath| q.proper() && #[trigger] s.table_at(root, q) == Some(x);
            assert(s2.table_at(root, q) == Some(x));
        }
    }
    assert forall|page: nat| p4_index_of(page) != 511 implies #[trigger] s2.translate_from(
        root,
        page,
    ) == s.translate_from(root, page) && s2.leaf(root, page) == s.leaf(root, page)
        && s2.path_clear(root, page) == s.path_clear(root, page) by {
        let q3 = TablePath::of_page(page);
        let q1 = q3.prefix(1);
        let q2 = q3.prefix(2);
        assert(q1.proper() && q2.proper() && q3.proper());
        lemma_same_tables_path(s, s2, root, q1);
        lemma_same_tables_path(s, s2, root, q2);
        lemma_same_tables_path(s, s2, root, q3);
        assert(s2.word(root, q3.i4) == s.word(root, q3.i4));
        if s.table_at(root, q1).is_some() {
            let t3 = s.table_at(root, q1).unwrap();
            assert(s.is_table(root, t3));
            assert(t3 != root);
            assert(s2.mem[t3 as int] == s.mem[t3 as int]);
            if s.table_at(root, q2).is_some() {
                let t2 = s.table_at(root, q2).unwrap();
                assert(s.is_table(root, t2));
                assert(t2 != root);
                assert(s2.mem[t2 as int] == s.mem[t2 as int]);
                if s.table_at(root, q3).is_some() {
                    let t1 = s.table_at(root, q3).unwrap();
                    assert(s.is_table(root, t1));
                    assert(t1 != root);
                    assert(s2.mem[t1 as int] == s.mem[t1 as int]);
                }
            }
        }
    }
}

proof fn lemma_same_tables_path(s: MachineState, s2: MachineState, root: nat, q: TablePath)
    requires
        s.tree(root),
        s2.wf(),
        s2.frames() == s.frames(),
        forall|f: int|
            0 <= f < s.frames() && s.is_table(root, f as nat) && f != root ==> #[trigger] s2.mem[f]
                == s.mem[f],
        forall|i: int| 0 <= i < 512 && i != 511 ==> s2.mem[root as int][i] == s.mem[root as int][i],
        q.proper(),
    ensures
        s2.table_at(root, q) == s.table_at(root, q),
{
    reveal(MachineState::tables_apart);
    assert(TablePath::root().proper());
    assert(s.table_at(root, TablePath::root()) == Some(root));
    let q1 = q.prefix(1);
    let q2 = q.prefix(2);
    if q.depth >= 1 {
        assert(q1.proper());
        assert(s2.word(root, q.i4) == s.word(root, q.i4));
        if s.table_at(root, q1).is_some() && q.depth >= 2 {
            let t3 = s.table_at(root, q1).unwrap();
            assert(q2.proper());
            assert(s.is_table(root, t3));
            assert(t3 != root);
            assert(s2.mem[t3 as int] == s.mem[t3 as int]);
            if s.table_at(root, q2).is_some() && q.depth >= 3 {
                let t2 = s.table_at(root, q2).unwrap();
                assert(s.is_table(root, t2));
                assert(t2 != root);
                assert(s2.mem[t2 as int] == s.mem[t2 as int]);
            }
        }
    }
}

/// The walk for a page outside the recursive window reads tables of the
/// hierarchy and no other frame.
pub proof fn lemma_walk_reads_tables(s: MachineState, root: nat, page: nat, frame: nat)
    requires
        s.tree(root),
        p4_index_of(page) != 511,
        s.walk_reads(root, page, frame),
    ensures
        s.is_table(root, frame),
{
    let q3 = TablePath::of_page(page);
    let q1 = q3.prefix(1);
    let q2 = q3.prefix(2);
    assert(TablePath::root().proper() && q1.proper() && q2.proper() && q3.proper());
    assert(s.table_at(root, TablePath::root()) == Some(root));
    if frame != root {
        let t3 = s.table_at(root, q1).unwrap();
        if frame != t3 {
            let t2 = s.table_at(root, q2).unwrap();
            if frame != t2 {
                assert(s.table_at(root, q3) == Some(frame));
            } else {
                assert(s.table_at(root, q2) == Some(frame));
            }
        } else {
            assert(s.table_at(root, q1) == Some(frame));
        }
    }
}

/// A state has come from another also with regard to a wider pool, when
/// the frames that widen it are in the pool before and after.
pub proof fn lemma_grown_wider(
    s: MachineState,
    before: MachineState,
    page: nat,
    pool_before: Set<nat>,
    pool_after: Set<nat>,
    more: Set<nat>,
)
    requires
        s.grown_from(before, page, pool_before, pool_after),
        more.disjoint(pool_before),
    ensures
        s.grown_from(before, page, pool_before.union(more), pool_after.union(more)),
{
    reveal(MachineState::grown_from);
    reveal(MachineState::edited_from);
}

/// A change of frames that are no tables of the hierarchy, and not the
/// active level-4 table, makes a state that has come from the one before,
/// the changed frames taken as a pool that stays as it is.
pub proof fn lemma_grown_beside(
    s: MachineState,
    s2: MachineState,
    page: nat,
    changed: Set<nat>,
)
    requires
        s.hierarchy_ok(),
        s2.wf(),
        s2.frames() == s.frames(),
        s2.cr3 == s.cr3,
        forall|f: int|
            0 <= f < s.frames() && !changed.contains(f as nat) ==> #[trigger] s2.mem[f] == s.mem[f],
        forall|f: nat| changed.contains(f) ==> !s.is_table(s.root().unwrap(), f) && f != s.cr3,
    ensures
        s2.grown_from(s, page, changed, changed),
        forall|other: nat|
            p4_index_of(other) != 511 ==> #[trigger] s2.translate_from(s.root().unwrap(), other)
                == s.translate_from(s.root().unwrap(), other),
        forall|other: nat|
            p4_index_of(other) != 511 ==> #[trigger] s2.leaf(s.root().unwrap(), other) == s.leaf(
                s.root().unwrap(),
                other,
            ),
        forall|q: TablePath|
            q.proper() ==> #[trigger] s2.table_at(s.root().unwrap(), q) == s.table_at(
                s.root().unwrap(),
                q,
            ),
{
    reveal(MachineState::grown_from);
    reveal(MachineState::edited_from);
    let root = s.root().unwrap();
    assert(s.is_table(root, root)) by {
        assert(TablePath::root().proper());
        assert(s.table_at(root, TablePath::root()) == Some(root));
    }
    assert(s2.mem[s.cr3 as int] == s.mem[s.cr3 as int]);
    assert(s2.mem[root as int] == s.mem[root as int]);
    lemma_same_tables(s, s2, root);
    assert(s2.root() == s.root());
    assert(s2.is_table(root, s2.cr3) == s.is_table(root, s.cr3));
}

/// A state that differs from another in the requests to drop cached
/// translations alone has come from that other.
pub proof fn lemma_grown_by_flush(s: MachineState, request: TlbFlush, page: nat, pool: Set<nat>)
    requires
        s.hierarchy_ok(),
    ensures
        s.flush(request).grown_from(s, page, pool, pool),
{
    reveal(MachineState::grown_from);
    reveal(MachineState::edited_from);
    lemma_flush_keeps(s, request);
}

impl MachineState {
    /// The frame holds a level-4 table with nothing mapped: its recursive
    /// entry points to the frame, and every other entry is zero.
    pub open spec fn lone_root(self, frame: nat) -> bool {
        &&& self.tree(frame)
        &&& forall|x: nat| #[trigger] self.is_table(frame, x) <==> x == frame
        &&& forall|page: nat|
            p4_index_of(page) != 511 ==> #[trigger] self.translate_from(frame, page)
                == None::<nat>
        &&& forall|i: nat| i < 512 && i != 511 ==> #[trigger] self.word(frame, i) == 0
    }
}

/// A cleared frame whose recursive entry points to the frame holds a
/// level-4 table with nothing mapped.
pub proof fn lemma_cleared_root(s: MachineState, frame: nat)
    requires
        s.wf(),
        frame < s.frames(),
        frame < ENTRY_FRAME_LIMIT,
    ensures
        s.clear_frame(frame).write(
            frame,
            511,
            raw_entry(frame, EntryFlags::PRESENT | EntryFlags::WRITABLE),
        ).lone_root(frame),
{
    let s3 = s.clear_frame(frame).write(
        frame,
        511,
        raw_entry(frame, EntryFlags::PRESENT | EntryFlags::WRITABLE),
    );
    lemma_table_flags();
    lemma_raw_entry(frame, EntryFlags::PRESENT | EntryFlags::WRITABLE);
    lemma_raw_frame_bounded(0);
    assert forall|i: nat| i < 512 && i != 511 implies #[trigger] s3.word(frame, i) == 0 by {}
    lemma_lone_root(s3, frame);
}

/// A level-4 table with nothing mapped stays one when other frames change.
pub proof fn lemma_lone_root_stays(s: MachineState, s2: MachineState, frame: nat)
    requires
        s.lone_root(frame),
        s2.wf(),
        s2.frames() == s.frames(),
        s2.mem[frame as int] == s.mem[frame as int],
    ensures
        s2.lone_root(frame),
{
    lemma_raw_frame_bounded(0);
    assert forall|i: nat| i < 512 && i != 511 implies #[trigger] s2.word(frame, i) == 0 by {
        assert(s.word(frame, i) == 0);
    }
    assert forall|i: nat| i < 512
        && i != 511 implies !raw_present(#[trigger] s2.word(frame, i)) by {
        assert(s2.word(frame, i) == 0);
    }
    lemma_lone_root(s2, frame);
}

impl MachineState {
    /// The hierarchy below `root` is in this state what it is in `other`:
    /// the same tables, reached on the same paths, and outside the
    /// recursive window the same translations and level-1 entries.
    #[verifier::opaque]
    pub open spec fn same_hierarchy(self, other: MachineState, root: nat) -> bool {
        &&& forall|q: TablePath|
            q.proper() ==> #[trigger] self.table_at(root, q) == other.table_at(root, q)
        &&& forall|x: nat| #[trigger] self.is_table(root, x) <==> other.is_table(root, x)
        &&& forall|page: nat|
            p4_index_of(page) != 511 ==> #[trigger] self.translate_from(root, page)
                == other.translate_from(root, page)
        &&& forall|page: nat|
            p4_index_of(page) != 511 ==> #[trigger] self.leaf(root, page) == other.leaf(root, page)
        &&& forall|page: nat|
            p4_index_of(page) != 511 ==> #[trigger] self.path_clear(root, page) == other.path_clear(
                root,
                page,
            )
    }
}

/// What it means that a hierarchy is the same in two states.
pub proof fn lemma_same_hierarchy_means(s: MachineState, other: MachineState, root: nat)
    requires
        s.same_hierarchy(other, root),
    ensures
        forall|q: TablePath| q.proper()
            ==> #[trigger] s.table_at(root, q) == other.table_at(root, q),
        forall|x: nat| #[trigger] s.is_table(root, x) <==> other.is_table(root, x),
        forall|page: nat|
            p4_index_of(page) != 511 ==> #[trigger] s.translate_from(root, page)
                == other.translate_from(root, page),
        forall|page: nat|
            p4_index_of(page) != 511 ==> #[trigger] s.leaf(root, page) == other.leaf(root, page),
        forall|page: nat|
            p4_index_of(page) != 511 ==> #[trigger] s.path_clear(root, page) == other.path_clear(
                root,
                page,
            ),
{
    reveal(MachineState::same_hierarchy);
}

/// A hierarchy is the same in two states that agree on its tables, the
/// recursive entry of its level-4 table left aside. Where that entry points
/// to the table in the second state too, the hierarchy is a tree there.
pub proof fn lemma_same_hierarchy(s: MachineState, s2: MachineState, root: nat)
    requires
        s.tree(root),
        s2.wf(),
        s2.frames() == s.frames(),
        forall|f: int|
            0 <= f < s.frames() && s.is_table(root, f as nat) && f != root ==> #[trigger] s2.mem[f]
                == s.mem[f],
        forall|i: int| 0 <= i < 512 && i != 511 ==> s2.mem[root as int][i] == s.mem[root as int][i],
    ensures
        s2.same_hierarchy(s, root),
        s2.child(root, 511) == Some(root) && s2.word(root, 511) == raw_entry(
            root,
            EntryFlags::PRESENT | EntryFlags::WRITABLE,
        ) ==> s2.tree(root),
{
    reveal(MachineState::same_hierarchy);
    lemma_same_tables(s, s2, root);
}

/// Being the same hierarchy carries over from state to state.
pub proof fn lemma_same_hierarchy_further(
    s0: MachineState,
    s1: MachineState,
    s2: MachineState,
    root: nat,
)
    requires
        s1.same_hierarchy(s0, root),
        s2.same_hierarchy(s1, root),
    ensures
        s2.same_hierarchy(s0, root),
{
    reveal(MachineState::same_hierarchy);
    assert forall|q: TablePath| q.proper() implies #[trigger] s2.table_at(root, q) == s0.table_at(
        root,
        q,
    ) by {
        assert(s1.table_at(root, q) == s0.table_at(root, q));
    }
    assert forall|x: nat| #[trigger] s2.is_table(root, x) <==> s0.is_table(root, x) by {
        assert(s1.is_table(root, x) <==> s0.is_table(root, x));
    }
    assert forall|page: nat| p4_index_of(page) != 511 implies #[trigger] s2.translate_from(
        root,
        page,
    ) == s0.translate_from(root, page) by {
        assert(s1.translate_from(root, page) == s0.translate_from(root, page));
    }
    assert forall|page: nat| p4_index_of(page) != 511 implies #[trigger] s2.leaf(root, page)
        == s0.leaf(root, page) by {
        assert(s1.leaf(root, page) == s0.leaf(root, page));
    }
    assert forall|page: nat| p4_index_of(page) != 511 implies #[trigger] s2.path_clear(root, page)
        == s0.path_clear(root, page) by {
        assert(s1.path_clear(root, page) == s0.path_clear(root, page));
    }
}

impl MachineState {
    /// The state after the recursive entry of the active level-4 table has
    /// been pointed to the level-4 table in frame `target`, so that the
    /// recursive window shows the hierarchy below `target`.
    pub open spec fn redirect(self, target: nat) -> MachineState {
        self.write(
            self.cr3,
            511,
            raw_entry(target, EntryFlags::PRESENT | EntryFlags::WRITABLE),
        ).flush(TlbFlush::All)
    }

    /// The recursive window of this state shows another hierarchy than the
    /// active one, and the active one is what it is in `entered`: no frame
    /// that is a table of the active hierarchy has changed, and none has
    /// become a table of the hierarchy that the window shows.
    pub open spec fn redirected_since(self, entered: MachineState) -> bool {
        &&& self.hierarchy_ok()
        &&& self.cr3 == entered.cr3
        &&& self.root() == entered.root()
        &&& self.root() != Some(self.cr3)
        &&& self.frames() == entered.frames()
        &&& forall|f: int|
            0 <= f < entered.frames() && entered.is_table(entered.cr3, f as nat)
                ==> #[trigger] self.mem[f] == entered.mem[f]
        &&& forall|x: nat| #[trigger]
            self.is_table(self.root().unwrap(), x) ==> !entered.is_table(entered.cr3, x)
    }
}

/// Pointing the recursive entry of the active level-4 table to another
/// level-4 table makes the recursive window show the hierarchy below that
/// table, and changes neither hierarchy.
pub proof fn lemma_redirect(s: MachineState, target: nat)
    requires
        s.hierarchy_ok(),
        s.root() == Some(s.cr3),
        s.tree(target),
        target != s.cr3,
        target < ENTRY_FRAME_LIMIT,
        forall|x: nat| #[trigger] s.is_table(target, x) ==> !s.is_table(s.cr3, x),
    ensures
        s.redirect(target).redirected_since(s.redirect(target)),
        s.redirect(target).root() == Some(target),
        s.redirect(target).cr3 == s.cr3,
        s.redirect(target).same_hierarchy(s, target),
        s.redirect(target).same_hierarchy(s, s.cr3),
{
    let active = s.cr3;
    let s1 = s.write(active, 511, raw_entry(target, EntryFlags::PRESENT | EntryFlags::WRITABLE));
    let s2 = s.redirect(target);
    lemma_table_flags();
    lemma_raw_entry(target, EntryFlags::PRESENT | EntryFlags::WRITABLE);
    assert(s.is_table(active, active)) by {
        assert(TablePath::root().proper());
        assert(s.table_at(active, TablePath::root()) == Some(active));
    }
    assert(s.is_table(target, target)) by {
        assert(TablePath::root().proper());
        assert(s.table_at(target, TablePath::root()) == Some(target));
    }
    assert(!s.is_table(target, active));
    assert forall|f: int| 0 <= f < s.frames() && f != active implies #[trigger] s2.mem[f]
        == s.mem[f] by {}
    assert forall|i: int| 0 <= i < 512 && i != 511 implies s2.mem[active as int][i]
        == s.mem[active as int][i] by {}
    lemma_same_hierarchy(s, s2, target);
    lemma_same_hierarchy(s, s2, active);
    lemma_same_hierarchy_means(s2, s, target);
    lemma_same_hierarchy_means(s2, s, active);
    assert(s2.word(target, 511) == s.word(target, 511));
    assert(s2.child(active, 511) == Some(target));
    assert(s2.tree(target));
}

/// Setting the recursive entry of the active level-4 table back makes the
/// recursive window show the active hierarchy again, as it was when the
/// window was pointed elsewhere; the hierarchy that the window showed
/// meanwhile stays what it has become.
pub proof fn lemma_restore(before: MachineState, target: nat, s: MachineState)
    requires
        before.hierarchy_ok(),
        before.root() == Some(before.cr3),
        before.redirect(target).root() == Some(target),
        s.redirected_since(before.redirect(target)),
    ensures
        ({
            let s2 = s.write(s.cr3, 511, before.word(before.cr3, 511)).flush(TlbFlush::All);
            &&& s2.hierarchy_ok()
            &&& s2.root() == Some(s.cr3)
            &&& s2.cr3 == s.cr3
            &&& s2.frames() == s.frames()
            &&& s2.same_hierarchy(before, s.cr3)
            &&& s.same_hierarchy(before, s.cr3)
            &&& before.redirect(target).same_hierarchy(before, s.cr3)
            &&& s2.tree(target)
            &&& s2.same_hierarchy(s, target)
            &&& forall|f: int| 0 <= f < s.frames() && f != s.cr3
                ==> #[trigger] s2.mem[f] == s.mem[f]
        }),
{
    let active = s.cr3;
    let entered = before.redirect(target);
    let s2 = s.write(active, 511, before.word(active, 511)).flush(TlbFlush::All);
    assert(before.is_table(active, active)) by {
        assert(TablePath::root().proper());
        assert(before.table_at(active, TablePath::root()) == Some(active));
    }
    lemma_table_flags();
    assert(entered.wf());
    assert forall|f: int| 0 <= f < before.frames() && f != active implies #[trigger] entered.mem[f]
        == before.mem[f] by {}
    assert forall|i: int| 0 <= i < 512 && i != 511 implies entered.mem[active as int][i]
        == before.mem[active as int][i] by {}
    lemma_same_hierarchy(before, entered, active);
    lemma_same_hierarchy_means(entered, before, active);
    assert(s.mem[active as int] == entered.mem[active as int]) by {
        assert(entered.is_table(active, active));
    }
    assert forall|f: int|
        0 <= f < before.frames() && before.is_table(active, f as nat)
            && f != active implies #[trigger] s.mem[f]
        == before.mem[f] by {
        assert(entered.is_table(active, f as nat));
        assert(s.mem[f] == entered.mem[f]);
    }
    assert forall|i: int| 0 <= i < 512 && i != 511 implies s.mem[active as int][i]
        == before.mem[active as int][i] by {}
    lemma_same_hierarchy(before, s, active);
    assert forall|f: int|
        0 <= f < before.frames() && before.is_table(active, f as nat)
            && f != active implies #[trigger] s2.mem[f]
        == before.mem[f] by {
        assert(entered.is_table(active, f as nat));
        assert(s.mem[f] == entered.mem[f]);
    }
    assert forall|i: int| 0 <= i < 512 && i != 511 implies s2.mem[active as int][i]
        == before.mem[active as int][i] by {}
    assert(s2.word(active, 511) == before.word(active, 511));
    lemma_same_hierarchy(before, s2, active);
    assert(s2.tree(active));
    assert(s2.root() == Some(active));
    // The hierarchy that the window showed.
    assert(s.tree(target));
    assert(!s.is_table(target, active)) by {
        if s.is_table(target, active) {
            assert(entered.is_table(active, active));
        }
    }
    assert forall|f: int| 0 <= f < s.frames() && f != active implies #[trigger] s2.mem[f]
        == s.mem[f] by {}
    assert(s.is_table(target, target)) by {
        assert(TablePath::root().proper());
        assert(s.table_at(target, TablePath::root()) == Some(target));
    }
    lemma_same_hierarchy(s, s2, target);
    assert(s2.word(target, 511) == s.word(target, 511));
}

/// Loading the register with the level-4 table of a tree makes that tree
/// the active hierarchy and the one that the recursive window shows.
pub proof fn lemma_switch(s: MachineState, target: nat)
    requires
        s.wf(),
        s.tree(target),
    ensures
        s.load_cr3(target).hierarchy_ok(),
        s.load_cr3(target).root() == Some(target),
        s.load_cr3(target).same_hierarchy(s, target),
{
    let s2 = s.load_cr3(target);
    lemma_same_hierarchy(s, s2, target);
}

/// While the recursive window shows another hierarchy, edits of that
/// hierarchy with frames from a pool that holds no table of the active
/// hierarchy leave the active hierarchy alone.
pub proof fn lemma_redirected_growth(
    entered: MachineState,
    s: MachineState,
    s2: MachineState,
    pool_before: Set<nat>,
    pool_after: Set<nat>,
)
    requires
        s.redirected_since(entered),
        s2.edited_from(s, pool_before, pool_after),
        forall|x: nat| #[trigger] pool_before.contains(x) ==> !entered.is_table(entered.cr3, x),
    ensures
        s2.redirected_since(entered),
{
    lemma_edited_means(s2, s, pool_before, pool_after);
    let root = s.root().unwrap();
    assert forall|f: int|
        0 <= f < entered.frames()
            && entered.is_table(entered.cr3, f as nat) implies #[trigger] s2.mem[f]
        == entered.mem[f] by {
        assert(s.mem[f] == entered.mem[f]);
        assert(!s.is_table(root, f as nat));
        assert(!pool_before.contains(f as nat));
        assert(s2.mem[f] == s.mem[f]);
    }
    assert forall|x: nat| #[trigger] s2.is_table(s2.root().unwrap(), x) implies !entered.is_table(
        entered.cr3,
        x,
    ) by {
        assert(s.is_table(root, x) || (pool_before.contains(x) && !pool_after.contains(x)));
    }
    if s2.cr3 != s2.root().unwrap() {
    }
}

/// A page that is mapped to a frame is translated to that frame, byte by
/// byte, and is not translated any more once it is unmapped: with the
/// level-1 entry of the page set to the frame and to flags that hold
/// PRESENT, every address of the page resolves to the address of the frame
/// with the same offset; with the entry set to zero afterwards, none does.
pub proof fn lemma_map_translate_unmap(
    s: MachineState,
    page: nat,
    frame: nat,
    flags: u64,
    address: u64,
)
    requires
        s.hierarchy_ok(),
        p4_index_of(page) != 511,
        s.table_at(s.root().unwrap(), TablePath::of_page(page)).is_some(),
        frame < ENTRY_FRAME_LIMIT,
        flags & !EntryFlags::ALL == 0,
        super::number_of(address) == page,
    ensures
        ({
            let root = s.root().unwrap();
            let t1 = s.table_at(root, TablePath::of_page(page)).unwrap();
            let mapped = s.write(
                t1,
                p1_index_of(page),
                raw_entry(frame, flags | EntryFlags::PRESENT),
            );
            let unmapped = mapped.write(t1, p1_index_of(page), 0);
            &&& mapped.translate_from(root, page) == Some(frame)
            &&& s.root() == Some(s.cr3) ==> mapped.resolve_page(super::number_of(address)) == Some(
                frame,
            )
            &&& unmapped.translate_from(root, page) == None::<nat>
            &&& unmapped.hierarchy_ok()
        }),
{
    let root = s.root().unwrap();
    let t1 = s.table_at(root, TablePath::of_page(page)).unwrap();
    let value = raw_entry(frame, flags | EntryFlags::PRESENT);
    let mapped = s.write(t1, p1_index_of(page), value);
    super::entry::lemma_flag_bits();
    assert((flags | EntryFlags::PRESENT) & !EntryFlags::ALL == 0);
    assert(super::entry::has_flag(flags | EntryFlags::PRESENT, EntryFlags::PRESENT));
    lemma_raw_entry(frame, flags | EntryFlags::PRESENT);
    lemma_raw_frame_bounded(0);
    lemma_write_leaf(s, page, value);
    assert(TablePath::of_page(page).proper());
    assert(mapped.table_at(root, TablePath::of_page(page)) == Some(t1));
    lemma_write_leaf(mapped, page, 0);
}

/// Below a level-4 table with nothing mapped, the way to the level-1 entry
/// of every page outside the recursive window is free, and all three tables
/// on it are missing.
pub proof fn lemma_lone_root_clear(s: MachineState, root: nat, page: nat)
    requires
        s.lone_root(root),
        p4_index_of(page) != 511,
    ensures
        s.path_clear(root, page),
        s.missing_tables(root, page) == 3,
        s.translate_from(root, page) == None::<nat>,
{
    lemma_raw_frame_bounded(0);
    assert(s.word(root, p4_index_of(page)) == 0);
}

} // verus!
