//! Physical memory frames.

use vstd::prelude::*;

use super::{end_of, number_of, start_of, PhysicalAddress, FRAME_LIMIT, PAGE_SIZE};

verus! {

/// Represents physical memory frame.
///
/// Frames are comparable via their start offsets in physical memory. A frame
/// is a token for a page of physical memory, so it cannot be cloned from
/// outside this crate.
#[derive(Debug, Ord, PartialOrd, Eq, PartialEq)]
pub struct Frame {
    pub(crate) number: u64,
}

impl View for Frame {
    type V = nat;

    /// The frame number: the frame's start address divided by the page size.
    closed spec fn view(&self) -> nat {
        self.number as nat
    }
}

impl Frame {
    #[verifier::type_invariant]
    spec fn inv(self) -> bool {
        self.number < FRAME_LIMIT
    }

    pub(crate) fn clone(&self) -> (r: Frame)
        ensures
            r@ == self@,
    {
        proof {
            use_type_invariant(self);
        }
        Frame { number: self.number }
    }

    /// Returns `Frame` containing given physical `address`.
    pub fn containing_address(address: PhysicalAddress) -> (r: Frame)
        ensures
            r@ == number_of(address),
    {
        Frame { number: address / PAGE_SIZE }
    }

    /// The frame with the given number.
    pub(crate) fn from_number(number: u64) -> (r: Frame)
        requires
            number < FRAME_LIMIT,
        ensures
            r@ == number,
    {
        Frame { number }
    }

    /// Returns the frame number.
    pub fn number(&self) -> (r: u64)
        ensures
            r == self@,
            r < FRAME_LIMIT,
    {
        proof {
            use_type_invariant(self);
        }
        self.number
    }

    /// Returns frame start physical address.
    pub fn start_address(&self) -> (r: PhysicalAddress)
        ensures
            r == start_of(self@),
    {
        proof {
            use_type_invariant(self);
        }
        self.number * PAGE_SIZE
    }

    /// Returns first physical address after frame end.
    pub fn end_address(&self) -> (r: PhysicalAddress)
        requires
            self@ + 1 < FRAME_LIMIT,
        ensures
            r == end_of(self@),
    {
        (self.number + 1) * PAGE_SIZE
    }

    /// The frames from `start` to `end`, both included.
    pub fn range_inclusive(start: Frame, end: Frame) -> (r: FrameIter)
        ensures
            r.front() == start@,
            r.back() == end@,
    {
        proof {
            use_type_invariant(&start);
            use_type_invariant(&end);
        }
        FrameIter { start: start.number, end: end.number }
    }
}

/// Walks a range of frames in ascending order.
pub struct FrameIter {
    start: u64,
    end: u64,
}

impl FrameIter {
    #[verifier::type_invariant]
    spec fn inv(self) -> bool {
        self.start <= FRAME_LIMIT && self.end < FRAME_LIMIT
    }

    /// Number of the next frame to be handed out.
    pub closed spec fn front(&self) -> nat {
        self.start as nat
    }

    /// Number of the last frame of the range.
    pub closed spec fn back(&self) -> nat {
        self.end as nat
    }

    /// Hands out the frames of the range one by one, lowest first, and `None`
    /// once the last one has been handed out.
    pub fn next(&mut self) -> (r: Option<Frame>)
        ensures
            final(self).back() == old(self).back(),
            old(self).front() <= old(self).back()
                ==> r.is_some() && r.unwrap()@ == old(self).front()
                && final(self).front() == old(self).front() + 1,
            old(self).front() > old(self).back()
                ==> r.is_none() && final(self).front() == old(self).front(),
    {
        proof {
            use_type_invariant(&*self);
        }
        if self.start <= self.end {
            let frame = Frame { number: self.start };
            self.start = self.start + 1;
            Some(frame)
        } else {
            None
        }
    }
}

} // verus!
