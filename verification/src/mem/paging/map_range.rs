//! Mapping a range of pages to fresh frames, as the heap and the stacks
//! need it.

use vstd::prelude::*;

use super::entry::{raw_entry, EntryFlags};
use super::demand::{
    lemma_grew_none, lemma_grew_one_more, lemma_missing_of_page, lemma_missing_step, page_range,
};
use super::frame_alloc::FrameAlloc;
use super::hierarchy::lemma_grown_means;
use super::machine::MachineState;
use super::mapper::Mapper;
use super::page::{p4_index_of, Page};
use super::hierarchy::same_slot;
use super::remap::{lemma_slots, range_pages, slot_of, SLOT_COUNT};
use super::FRAME_LIMIT;

verus! {

/// Whether the page has the four table indices of one of the pages from
/// `first` to `up_to` (not included), so that a level-1 entry of theirs maps
/// it too.
#[verifier::opaque]
pub open spec fn shares_slot(page: nat, first: nat, up_to: nat) -> bool {
    exists|q: nat| first <= q < up_to && #[trigger] same_slot(page, q)
}

/// Two pages that are fewer than 2^36 pages apart differ in a table index.
pub proof fn lemma_apart(a: nat, b: nat)
    requires
        a < b < FRAME_LIMIT,
        b - a < SLOT_COUNT,
    ensures
        !same_slot(a, b),
        !same_slot(b, a),
{
    lemma_slots(a, b);
    lemma_slots(b, a);
    let x = a as u64;
    let y = b as u64;
    assert(x % 0x10_0000_0000 != y % 0x10_0000_0000) by (bit_vector)
        requires
            x < y,
            y < 0x0010_0000_0000_0000u64,
            y - x < 0x10_0000_0000u64,
    ;
}

/// A page beside a range of pages, fewer than 2^36 pages from its far end,
/// has the table indices of none of them.
pub proof fn lemma_beside(page: nat, first: nat, up_to: nat)
    requires
        page < FRAME_LIMIT,
        up_to <= FRAME_LIMIT,
        page < first || page >= up_to,
        page < first ==> up_to - page <= SLOT_COUNT,
        page >= up_to ==> page - first < SLOT_COUNT,
    ensures
        !shares_slot(page, first, up_to),
{
    reveal(shares_slot);
    if shares_slot(page, first, up_to) {
        let q = choose|q: nat| first <= q < up_to && #[trigger] same_slot(page, q);
        if page < q {
            lemma_apart(page, q);
        } else {
            lemma_apart(q, page);
        }
    }
}

/// In the lower half of the address space a page has the table indices of
/// a page of a range just when the page with its indices lies in the range.
pub proof fn lemma_shares_slot_low(page: nat, first: nat, up_to: nat)
    requires
        page < FRAME_LIMIT,
        up_to <= 0x8_0000_0000,
    ensures
        shares_slot(page, first, up_to) <==> first <= slot_of(page) < up_to,
{
    reveal(shares_slot);
    if shares_slot(page, first, up_to) {
        let q = choose|q: nat| first <= q < up_to && #[trigger] same_slot(page, q);
        lemma_slots(page, q);
        lemma_slots(q, q);
    }
    if first <= slot_of(page) < up_to {
        lemma_slots(page, page);
        assert(same_slot(page, slot_of(page)));
    }
}

impl MachineState {
    /// This state has come from `before` by mapping the pages from `first`
    /// to `up_to` (not included) to frames of the pool, a frame of its own
    /// for each page, with the given flags and PRESENT. Where tables were
    /// missing they came from the pool too. Outside the recursive window no
    /// page with other table indices is translated otherwise than before, and where the way to
    /// the level-1 entry of such a page was free it still is. No frame that
    /// a page was mapped to is a table.
    #[verifier::opaque]
    pub open spec fn mapped_range_from(
        self,
        before: MachineState,
        first: nat,
        up_to: nat,
        flags: u64,
        pool_before: Set<nat>,
        pool_after: Set<nat>,
    ) -> bool {
        &&& self.hierarchy_ok()
        &&& self.root() == before.root()
        &&& self.cr3 == before.cr3
        &&& self.frames() == before.frames()
        &&& self.flushes == before.flushes
        &&& pool_after.subset_of(pool_before)
        &&& forall|page: nat|
            first <= page < up_to ==> {
                &&& (#[trigger] self.translate_from(before.root().unwrap(), page)).is_some()
                &&& pool_before.contains(self.translate_from(before.root().unwrap(), page).unwrap())
                &&& !pool_after.contains(self.translate_from(before.root().unwrap(), page).unwrap())
                &&& self.leaf(before.root().unwrap(), page) == Some(
                    raw_entry(
                        self.translate_from(before.root().unwrap(), page).unwrap(),
                        flags | EntryFlags::PRESENT,
                    ),
                )
                &&& !self.is_table(
                    before.root().unwrap(),
                    self.translate_from(before.root().unwrap(), page).unwrap(),
                )
            }
        &&& forall|p: nat, q: nat|
            first <= p < q < up_to ==> #[trigger] self.translate_from(before.root().unwrap(), p)
                != #[trigger] self.translate_from(before.root().unwrap(), q)
        &&& forall|other: nat|
            other < FRAME_LIMIT && p4_index_of(other) != 511 && !shares_slot(other, first, up_to)
                ==> #[trigger] self.translate_from(before.root().unwrap(), other)
                == before.translate_from(before.root().unwrap(), other)
        &&& forall|other: nat|
            other < FRAME_LIMIT && p4_index_of(other) != 511 && !shares_slot(other, first, up_to)
                && before.path_clear(before.root().unwrap(), other) ==> #[trigger] self.path_clear(
                before.root().unwrap(),
                other,
            )
        &&& forall|other: nat|
            other < FRAME_LIMIT && p4_index_of(other) != 511 && !shares_slot(other, first, up_to)
                && before.leaf(before.root().unwrap(), other).is_some() ==> #[trigger] self.leaf(
                before.root().unwrap(),
                other,
            ) == before.leaf(before.root().unwrap(), other)
        &&& forall|x: nat| #[trigger]
            self.is_table(before.root().unwrap(), x) ==> before.is_table(
                before.root().unwrap(),
                x,
            ) || (pool_before.contains(x) && !pool_after.contains(x))
        &&& forall|x: nat|
            before.is_table(before.root().unwrap(), x) ==> #[trigger] self.is_table(
                before.root().unwrap(),
                x,
            )
        &&& forall|f: int|
            0 <= f < self.frames() && !before.is_table(before.root().unwrap(), f as nat)
                && !pool_before.contains(f as nat) ==> #[trigger] self.mem[f] == before.mem[f]
    }
}

/// What it means that a range of pages has been mapped.
pub proof fn lemma_mapped_range_means(
    s: MachineState,
    before: MachineState,
    first: nat,
    up_to: nat,
    flags: u64,
    pool_before: Set<nat>,
    pool_after: Set<nat>,
)
    requires
        s.mapped_range_from(before, first, up_to, flags, pool_before, pool_after),
    ensures
        s.hierarchy_ok(),
        s.root() == before.root(),
        s.cr3 == before.cr3,
        s.frames() == before.frames(),
        s.flushes == before.flushes,
        pool_after.subset_of(pool_before),
        forall|page: nat|
            first <= page < up_to ==> {
                &&& (#[trigger] s.translate_from(before.root().unwrap(), page)).is_some()
                &&& pool_before.contains(s.translate_from(before.root().unwrap(), page).unwrap())
                &&& !pool_after.contains(s.translate_from(before.root().unwrap(), page).unwrap())
                &&& s.leaf(before.root().unwrap(), page) == Some(
                    raw_entry(
                        s.translate_from(before.root().unwrap(), page).unwrap(),
                        flags | EntryFlags::PRESENT,
                    ),
                )
                &&& !s.is_table(
                    before.root().unwrap(),
                    s.translate_from(before.root().unwrap(), page).unwrap(),
                )
            },
        forall|p: nat, q: nat|
            first <= p < q < up_to ==> #[trigger] s.translate_from(before.root().unwrap(), p)
                != #[trigger] s.translate_from(before.root().unwrap(), q),
        forall|other: nat|
            other < FRAME_LIMIT && p4_index_of(other) != 511 && !shares_slot(other, first, up_to)
                ==> #[trigger] s.translate_from(before.root().unwrap(), other)
                == before.translate_from(before.root().unwrap(), other),
        forall|other: nat|
            other < FRAME_LIMIT && p4_index_of(other) != 511 && !shares_slot(other, first, up_to)
                && before.path_clear(before.root().unwrap(), other) ==> #[trigger] s.path_clear(
                before.root().unwrap(),
                other,
            ),
        forall|other: nat|
            other < FRAME_LIMIT && p4_index_of(other) != 511 && !shares_slot(other, first, up_to)
                && before.leaf(before.root().unwrap(), other).is_some() ==> #[trigger] s.leaf(
                before.root().unwrap(),
                other,
            ) == before.leaf(before.root().unwrap(), other),
        forall|x: nat| #[trigger]
            s.is_table(before.root().unwrap(), x) ==> before.is_table(before.root().unwrap(), x)
                || (pool_before.contains(x) && !pool_after.contains(x)),
        forall|x: nat|
            before.is_table(before.root().unwrap(), x) ==> #[trigger] s.is_table(
                before.root().unwrap(),
                x,
            ),
        forall|f: int|
            0 <= f < s.frames() && !before.is_table(before.root().unwrap(), f as nat)
                && !pool_before.contains(f as nat) ==> #[trigger] s.mem[f] == before.mem[f],
{
    reveal(MachineState::mapped_range_from);
}

/// No page mapped is a range mapped.
pub proof fn lemma_mapped_range_none(s: MachineState, first: nat, flags: u64, pool: Set<nat>)
    requires
        s.hierarchy_ok(),
    ensures
        s.mapped_range_from(s, first, first, flags, pool, pool),
{
    reveal(MachineState::mapped_range_from);
}

/// A range that has been mapped, and the next page mapped to a further
/// frame of the pool, is a range mapped.
#[verifier::rlimit(30)]
pub proof fn lemma_mapped_range_more(
    s0: MachineState,
    s1: MachineState,
    s2: MachineState,
    first: nat,
    page: nat,
    flags: u64,
    pool0: Set<nat>,
    pool1: Set<nat>,
    pool2: Set<nat>,
)
    requires
        s1.mapped_range_from(s0, first, page, flags, pool0, pool1),
        first <= page < FRAME_LIMIT,
        page - first < SLOT_COUNT,
        forall|q: nat| first <= q <= page ==> #[trigger] p4_index_of(q) != 511,
        s2.translate_from(s0.root().unwrap(), page).is_some(),
        pool1.contains(s2.translate_from(s0.root().unwrap(), page).unwrap()),
        !pool2.contains(s2.translate_from(s0.root().unwrap(), page).unwrap()),
        s2.grown_from(
            s1,
            page,
            pool1.remove(s2.translate_from(s0.root().unwrap(), page).unwrap()),
            pool2,
        ),
        s2.flushes == s1.flushes,
        forall|x: nat| pool1.contains(x) ==> !#[trigger] s1.is_table(s0.root().unwrap(), x),
        s2.leaf(s0.root().unwrap(), page) == Some(
            raw_entry(
                s2.translate_from(s0.root().unwrap(), page).unwrap(),
                flags | EntryFlags::PRESENT,
            ),
        ),
    ensures
        s2.mapped_range_from(s0, first, page + 1, flags, pool0, pool2),
{
    reveal(MachineState::mapped_range_from);
    let root = s0.root().unwrap();
    let frame = s2.translate_from(root, page).unwrap();
    lemma_grown_means(s2, s1, page, pool1.remove(frame), pool2);
    assert forall|p: nat| first <= p < page + 1 implies {
        &&& (#[trigger] s2.translate_from(root, p)).is_some()
        &&& pool0.contains(s2.translate_from(root, p).unwrap())
        &&& !pool2.contains(s2.translate_from(root, p).unwrap())
        &&& s2.leaf(root, p) == Some(
            raw_entry(s2.translate_from(root, p).unwrap(), flags | EntryFlags::PRESENT),
        )
        &&& !s2.is_table(root, s2.translate_from(root, p).unwrap())
    } by {
        if p < page {
            lemma_apart(p, page);
            assert(p4_index_of(p) != 511);
            assert(s2.translate_from(root, p) == s1.translate_from(root, p));
            assert(s1.leaf(root, p).is_some());
            assert(s2.leaf(root, p) == s1.leaf(root, p));
            assert(!s1.is_table(root, s1.translate_from(root, p).unwrap()));
            assert(!pool1.contains(s1.translate_from(root, p).unwrap()));
        } else {
            assert(!s1.is_table(root, frame));
        }
    }
    assert forall|p: nat, q: nat| first <= p < q < page + 1 implies #[trigger] s2.translate_from(
        root,
        p,
    ) != #[trigger] s2.translate_from(root, q) by {
        lemma_apart(p, page);
        assert(p4_index_of(p) != 511);
        assert(s2.translate_from(root, p) == s1.translate_from(root, p));
        if q < page {
            lemma_apart(q, page);
            assert(p4_index_of(q) != 511);
            assert(s2.translate_from(root, q) == s1.translate_from(root, q));
        } else {
            assert(!pool1.contains(s1.translate_from(root, p).unwrap()));
        }
    }
    assert forall|other: nat|
        other < FRAME_LIMIT && p4_index_of(other) != 511 && !shares_slot(
            other,
            first,
            page + 1,
        ) implies #[trigger] s2.translate_from(root, other) == s0.translate_from(
        root,
        other,
    ) by {
        lemma_one_more_slot(other, first, page);
        assert(s2.translate_from(root, other) == s1.translate_from(root, other));
    }
    assert forall|other: nat|
        other < FRAME_LIMIT && p4_index_of(other) != 511 && !shares_slot(other, first, page + 1)
            && s0.path_clear(root, other) implies #[trigger] s2.path_clear(root, other) by {
        lemma_one_more_slot(other, first, page);
        assert(s1.path_clear(root, other));
    }
    assert forall|other: nat|
        other < FRAME_LIMIT && p4_index_of(other) != 511 && !shares_slot(other, first, page + 1)
            && s0.leaf(root, other).is_some() implies #[trigger] s2.leaf(root, other) == s0.leaf(
        root,
        other,
    ) by {
        lemma_one_more_slot(other, first, page);
        assert(s1.leaf(root, other) == s0.leaf(root, other));
    }
    assert forall|x: nat| #[trigger] s2.is_table(root, x) implies s0.is_table(root, x) || (
    pool0.contains(x) && !pool2.contains(x)) by {
        assert(s1.is_table(root, x) || (pool1.remove(frame).contains(x) && !pool2.contains(x)));
        if s1.is_table(root, x) {
            assert(s0.is_table(root, x) || (pool0.contains(x) && !pool1.contains(x)));
        }
    }
    assert forall|x: nat| s0.is_table(root, x) implies #[trigger] s2.is_table(root, x) by {
        assert(s1.is_table(root, x));
    }
    assert forall|f: int|
        0 <= f < s2.frames() && !s0.is_table(root, f as nat) && !pool0.contains(
            f as nat,
        ) implies #[trigger] s2.mem[f] == s0.mem[f] by {
        assert(s1.mem[f] == s0.mem[f]);
        if s1.is_table(root, f as nat) {
            assert(s0.is_table(root, f as nat) || (pool0.contains(f as nat) && !pool1.contains(
                f as nat,
            )));
        }
        assert(s2.mem[f] == s1.mem[f]);
    }
}

/// A page that has the table indices of no page of a range with one page
/// more has those of no page of the range nor of that page.
proof fn lemma_one_more_slot(other: nat, first: nat, page: nat)
    requires
        first <= page,
        !shares_slot(other, first, page + 1),
    ensures
        !shares_slot(other, first, page),
        !same_slot(other, page),
{
    reveal(shares_slot);
    if shares_slot(other, first, page) {
        let q = choose|q: nat| first <= q < page && #[trigger] same_slot(other, q);
        assert(first <= q < page + 1 && same_slot(other, q));
    }
    if same_slot(other, page) {
        assert(first <= page < page + 1 && same_slot(other, page));
    }
}

/// Maps each page from `start` to `end`, both included, to a fresh frame of
/// the allocator, with the given flags.
///
/// The pages must lie outside the recursive window and be fewer than 2^36,
/// so that no two of them have the same table indices; the way to the
/// level-1 entry of each must be free, and the allocator must hold a
/// frame for each page and one for each table that is missing on the ways
/// to them, all fit to become tables.
pub fn map_pages<A: FrameAlloc>(
    mapper: &mut Mapper,
    start: Page,
    end: Page,
    flags: EntryFlags,
    allocator: &mut A,
)
    requires
        old(mapper).wf(),
        old(allocator).wf(),
        forall|q: nat| start@ <= q <= end@ ==> #[trigger] p4_index_of(q) != 511,
        start@ <= end@ ==> end@ - start@ < SLOT_COUNT,
        forall|q: nat| start@ <= q <= end@
            ==> #[trigger] old(mapper)@.path_clear(old(mapper).root(), q),
        old(allocator).free_frames().finite(),
        old(allocator).free_frames().len() >= old(mapper)@.missing_for(
            old(mapper).root(),
            page_range(start@, end@),
        ).len() + range_pages(start@, end@),
        old(mapper)@.pool_fresh(old(allocator).free_frames()),
    ensures
        final(mapper).wf(),
        final(allocator).wf(),
        forall|f: nat| old(allocator).accepts(f) ==> #[trigger] final(allocator).accepts(f),
        final(mapper)@.mapped_range_from(
            old(mapper)@,
            start@,
            if start@ <= end@ {
                end@ + 1
            } else {
                start@
            },
            flags@,
            old(allocator).free_frames(),
            final(allocator).free_frames(),
        ),
        final(allocator).free_frames().finite(),
        final(mapper)@.grew_for(old(mapper)@, old(mapper).root(), page_range(start@, end@)),
        final(allocator).free_frames().len() + old(mapper)@.missing_for(
            old(mapper).root(),
            page_range(start@, end@),
        ).len() + range_pages(start@, end@) == old(allocator).free_frames().len(),
        final(mapper)@.pool_fresh(final(allocator).free_frames()),
{
    let ghost s0 = mapper@;
    let ghost root = mapper.root();
    let ghost pool0 = allocator.free_frames();
    let ghost first = start@;
    let ghost last = end@;
    let mut pages = Page::range_inclusive(start, end);
    let mut next = pages.next();
    let ghost all = page_range(first, last);
    let ghost mut mapped: Set<nat> = Set::empty();
    proof {
        lemma_mapped_range_none(s0, first, flags@, pool0);
        lemma_grew_none(s0, s0, root);
        assert(mapped =~= Set::new(|q: nat| first <= q && q < first));
        if next.is_none() {
            assert(all =~= Set::<nat>::empty());
        }
    }
    while next.is_some()
        invariant
            mapper.wf(),
            allocator.wf(),
            forall|f: nat| old(allocator).accepts(f) ==> #[trigger] allocator.accepts(f),
            mapper.root() == root,
            s0.root() == Some(root),
            last < FRAME_LIMIT,
            forall|q: nat| first <= q <= last ==> #[trigger] p4_index_of(q) != 511,
            first <= last ==> last - first < SLOT_COUNT,
            pages.back() == last,
            next.is_some()
                ==> first <= next.unwrap()@ <= last && pages.front() == next.unwrap()@ + 1,
            next.is_none()
                ==> pages.front() > last && (first <= last ==> pages.front() == last + 1),
            first <= pages.front(),
            forall|q: nat| first <= q <= last ==> #[trigger] s0.path_clear(root, q),
            mapper@.mapped_range_from(
                s0,
                first,
                if next.is_some() {
                    next.unwrap()@
                } else if first <= last {
                    last + 1
                } else {
                    first
                },
                flags@,
                pool0,
                allocator.free_frames(),
            ),
            allocator.free_frames().finite(),
            all == page_range(first, last),
            mapped =~= Set::new(
                |q: nat|
                    first <= q && q < (if next.is_some() {
                        next.unwrap()@
                    } else if first <= last {
                        last + 1
                    } else {
                        first
                    }),
            ),
            mapper@.grew_for(s0, root, mapped),
            pool0.len() >= s0.missing_for(root, all).len() + range_pages(first, last),
            allocator.free_frames().len() + s0.missing_for(root, all).len() + (if next.is_some() {
                next.unwrap()@ - first
            } else {
                range_pages(first, last) as int
            }) == pool0.len() + mapper@.missing_for(root, all).len(),
            mapper@.pool_fresh(allocator.free_frames()),
        decreases
            (if next.is_some() {
                last - next.unwrap()@ + 1
            } else {
                0
            }),
    {
        let page = next.unwrap();
        let ghost number = page@;
        let ghost before = mapper@;
        let ghost pool = allocator.free_frames();
        proof {
            lemma_beside(number, first, number);
            assert(p4_index_of(number) != 511);
            lemma_mapped_range_means(before, s0, first, number, flags@, pool0, pool);
            assert(s0.path_clear(root, number));
            assert(before.path_clear(root, number));
            lemma_missing_of_page(before, root, number, all);
        }
        mapper.map(page, flags, allocator);
        proof {
            let frame = mapper@.translate_from(root, number).unwrap();
            lemma_grown_means(mapper@, before, number, pool.remove(frame), allocator.free_frames());
            lemma_missing_step(before, mapper@, root, number, all);
            lemma_grew_one_more(s0, before, mapper@, root, mapped, number);
            mapped = mapped.insert(number);
            vstd::set_lib::lemma_len_subset(allocator.free_frames(), pool);
            lemma_mapped_range_more(
                s0,
                before,
                mapper@,
                first,
                number,
                flags@,
                pool0,
                pool,
                allocator.free_frames(),
            );
        }
        next = pages.next();
    }
    proof {
        assert(mapped =~= all);
        super::demand::lemma_grew_means(mapper@, s0, root, all);
    }
}

} // verus!
