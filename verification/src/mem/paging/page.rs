//! Virtual memory pages.

use vstd::prelude::*;

use super::{end_of, is_canonical, number_of, start_of, VirtualAddress, FRAME_LIMIT, PAGE_SIZE};

verus! {

/// Represents virtual memory page
#[derive(Clone, Copy, Debug, Ord, PartialOrd, Eq, PartialEq)]
pub struct Page {
    pub(crate) number: u64,
}

impl View for Page {
    type V = nat;

    /// The page number: the page's start address divided by the page size.
    closed spec fn view(&self) -> nat {
        self.number as nat
    }
}

/// Index into the level-4 table of the page with the given number.
pub open spec fn p4_index_of(number: nat) -> nat {
    (number / 0x800_0000) % 512
}

/// Index into the level-3 table of the page with the given number.
pub open spec fn p3_index_of(number: nat) -> nat {
    (number / 0x4_0000) % 512
}

/// Index into the level-2 table of the page with the given number.
pub open spec fn p2_index_of(number: nat) -> nat {
    (number / 512) % 512
}

/// Index into the level-1 table of the page with the given number.
pub open spec fn p1_index_of(number: nat) -> nat {
    number % 512
}

impl Page {
    #[verifier::type_invariant]
    spec fn inv(self) -> bool {
        self.number < FRAME_LIMIT
    }

    /// Returns `Page` containing given virtual `address`
    ///
    /// The address must be canonical: its sign extension must be valid.
    pub fn containing_address(address: VirtualAddress) -> (r: Page)
        requires
            is_canonical(address),
        ensures
            r@ == number_of(address),
    {
        Page { number: address / PAGE_SIZE }
    }

    /// The page with the given number.
    pub fn from_number(number: u64) -> (r: Page)
        requires
            number < FRAME_LIMIT,
        ensures
            r@ == number,
    {
        Page { number }
    }

    /// Returns the page number.
    pub fn number(&self) -> (r: u64)
        ensures
            r == self@,
            r < FRAME_LIMIT,
    {
        proof {
            use_type_invariant(self);
        }
        self.number
    }

    /// Returns page start virtual address.
    pub fn start_address(&self) -> (r: VirtualAddress)
        ensures
            r == start_of(self@),
    {
        proof {
            use_type_invariant(self);
        }
        self.number * PAGE_SIZE
    }

    /// Returns first virtual address after page end
    pub fn end_address(self) -> (r: VirtualAddress)
        requires
            self@ + 1 < FRAME_LIMIT,
        ensures
            r == end_of(self@),
    {
        (self.number + 1) * PAGE_SIZE
    }

    pub fn p4_index(&self) -> (r: usize)
        ensures
            r == p4_index_of(self@),
            r < 512,
    {
        let n: u64 = self.number;
        assert((n >> 27) & 0o777 == (n / 0x800_0000) % 512) by (bit_vector);
        ((n >> 27) & 0o777) as usize
    }

    pub fn p3_index(&self) -> (r: usize)
        ensures
            r == p3_index_of(self@),
            r < 512,
    {
        let n: u64 = self.number;
        assert((n >> 18) & 0o777 == (n / 0x4_0000) % 512) by (bit_vector);
        ((n >> 18) & 0o777) as usize
    }

    pub fn p2_index(&self) -> (r: usize)
        ensures
            r == p2_index_of(self@),
            r < 512,
    {
        let n: u64 = self.number;
        assert((n >> 9) & 0o777 == (n / 512) % 512) by (bit_vector);
        ((n >> 9) & 0o777) as usize
    }

    pub fn p1_index(&self) -> (r: usize)
        ensures
            r == p1_index_of(self@),
            r < 512,
    {
        let n: u64 = self.number;
        assert((n >> 0) & 0o777 == n % 512) by (bit_vector);
        ((n >> 0) & 0o777) as usize
    }

    /// The pages from `start` to `end`, both included.
    pub fn range_inclusive(start: Page, end: Page) -> (r: PageIter)
        ensures
            r.front() == start@,
            r.back() == end@,
            start@ < FRAME_LIMIT,
            end@ < FRAME_LIMIT,
    {
        proof {
            use_type_invariant(&start);
            use_type_invariant(&end);
        }
        PageIter { start: start.number, end: end.number }
    }

    /// The page `rhs` pages above this one.
    pub fn add(self, rhs: u64) -> (r: Page)
        requires
            self@ + rhs < FRAME_LIMIT,
        ensures
            r@ == self@ + rhs,
    {
        Page { number: self.number + rhs }
    }

    /// The page `rhs` pages below this one.
    pub fn sub(self, rhs: u64) -> (r: Page)
        requires
            rhs <= self@,
        ensures
            r@ == self@ - rhs,
    {
        proof {
            use_type_invariant(self);
        }
        Page { number: self.number - rhs }
    }
}

/// Walks a range of pages in ascending order.
#[derive(Clone, Copy, Debug)]
pub struct PageIter {
    start: u64,
    end: u64,
}

impl PageIter {
    #[verifier::type_invariant]
    spec fn inv(self) -> bool {
        self.start <= FRAME_LIMIT && self.end < FRAME_LIMIT
    }

    /// Number of the next page to be handed out.
    pub closed spec fn front(&self) -> nat {
        self.start as nat
    }

    /// Number of the last page of the range.
    pub closed spec fn back(&self) -> nat {
        self.end as nat
    }

    /// Skips `n` pages and hands out the one after them, or `None` where the
    /// range holds no `n + 1` pages any more; the range is then used up.
    pub fn nth(&mut self, n: u64) -> (r: Option<Page>)
        ensures
            final(self).back() == old(self).back(),
            old(self).front() + n <= old(self).back()
                ==> r.is_some() && r.unwrap()@ == old(self).front() + n
                    && final(self).front() == old(self).front() + n + 1,
            old(self).front() + n > old(self).back()
                ==> r.is_none() && final(self).front() > final(self).back(),
    {
        proof {
            use_type_invariant(&*self);
        }
        if self.start <= self.end && n <= self.end - self.start {
            let page = Page { number: self.start + n };
            self.start = self.start + n + 1;
            Some(page)
        } else {
            if self.start <= self.end {
                self.start = self.end + 1;
            }
            None
        }
    }

    /// Hands out the pages of the range one by one, lowest first, and `None`
    /// once the last one has been handed out.
    pub fn next(&mut self) -> (r: Option<Page>)
        ensures
            final(self).back() == old(self).back(),
            old(self).back() < FRAME_LIMIT,
            old(self).front() <= old(self).back()
                ==> r.is_some() && r.unwrap()@ == old(self).front()
                && final(self).front() == old(self).front() + 1,
            old(self).front() > old(self).back()
                ==> r.is_none() && final(self).front() == old(self).front(),
    {
        proof {
            use_type_invariant(&*self);
        }
        if self.start <= self.end {
            let page = Page { number: self.start };
            self.start = self.start + 1;
            Some(page)
        } else {
            None
        }
    }
}

} // verus!
