//! The allocator that hands out the frames of available memory once, in
//! ascending order.

use vstd::prelude::*;
use vstd::set_lib::*;

use crate::boot_info::{areas_hold, MemoryArea};
use crate::mem::paging::frame::Frame;
use crate::mem::paging::FRAME_LIMIT;

use super::FrameAlloc;

verus! {

/// Whether the frame with the given number lies in one of the two reserved
/// ranges, each given by the numbers of its first and its last frame.
pub open spec fn is_reserved(reserved: Seq<(nat, nat)>, frame: nat) -> bool {
    exists|i: int| 0 <= i < reserved.len() && (#[trigger] reserved[i]).0 <= frame <= reserved[i].1
}

/// The frames at or above `cursor` that lie in an area and in no reserved
/// range.
pub open spec fn unused_frames(
    areas: Seq<MemoryArea>,
    reserved: Seq<(nat, nat)>,
    cursor: nat,
) -> Set<nat> {
    Set::new(|n: nat| cursor <= n && areas_hold(areas, n) && !is_reserved(reserved, n))
}

/// Bump allocator over the areas of available memory. It skips the reserved
/// ranges (the kernel image and the boot information block) and never takes
/// a frame back.
pub struct CoreFrameAlloc {
    next_free_frame: u64,
    current_area: Option<MemoryArea>,
    areas: Vec<MemoryArea>,
    reserved_frames: [(Frame, Frame); 2],
}

impl CoreFrameAlloc {
    /// The areas of available memory.
    pub closed spec fn areas(&self) -> Seq<MemoryArea> {
        self.areas@
    }

    /// The reserved ranges, each as the numbers of its first and last frame.
    pub closed spec fn reserved(&self) -> Seq<(nat, nat)> {
        seq![
            (self.reserved_frames[0].0@, self.reserved_frames[0].1@),
            (self.reserved_frames[1].0@, self.reserved_frames[1].1@),
        ]
    }

    /// Number of the next frame that the allocator will look at.
    pub closed spec fn cursor(&self) -> nat {
        self.next_free_frame as nat
    }

    /// Whether every area ends within the 64-bit address space.
    pub open spec fn areas_in_bounds(areas: Seq<MemoryArea>) -> bool {
        forall|i: int| 0 <= i < areas.len() ==> (#[trigger] areas[i]).in_bounds()
    }

    spec fn inv(&self) -> bool {
        &&& Self::areas_in_bounds(self.areas@)
        &&& self.next_free_frame <= FRAME_LIMIT
        &&& match self.current_area {
            Some(area) => {
                &&& self.areas@.contains(area)
                &&& area.first_frame() <= self.next_free_frame <= area.last_frame() + 1
            },
            None => forall|i: int|
                0 <= i < self.areas@.len() ==> (#[trigger] self.areas@[i]).last_frame()
                    < self.next_free_frame,
        }
    }

    /// Constructs new core frame allocator. All frames of the areas that lie
    /// in no reserved range are free.
    pub fn new(areas: Vec<MemoryArea>, reserved_frames: [(Frame, Frame); 2]) -> (r: CoreFrameAlloc)
        requires
            Self::areas_in_bounds(areas@),
        ensures
            r.wf(),
            r.areas() == areas@,
            r.reserved() == seq![
                (reserved_frames[0].0@, reserved_frames[0].1@),
                (reserved_frames[1].0@, reserved_frames[1].1@),
            ],
            r.free_frames() == unused_frames(r.areas(), r.reserved(), 0),
    {
        let mut alloc = CoreFrameAlloc {
            next_free_frame: 0,
            current_area: None,
            areas,
            reserved_frames,
        };
        alloc.pick_next_area();
        proof {
            assert(alloc.free_frames() =~= unused_frames(alloc.areas(), alloc.reserved(), 0));
        }
        alloc
    }

    /// Chooses the area with the minimal base address that still has free frames,
    /// and updates next_free_frame to first frame in picked area.
    fn pick_next_area(&mut self)
        requires
            Self::areas_in_bounds(old(self).areas@),
            old(self).next_free_frame <= FRAME_LIMIT,
        ensures
            final(self).inv(),
            final(self).areas == old(self).areas,
            final(self).reserved_frames == old(self).reserved_frames,
            final(self).next_free_frame >= old(self).next_free_frame,
            final(self).current_area.is_some()
                && final(self).next_free_frame == old(self).next_free_frame
                ==> final(self).next_free_frame <= final(self).current_area.unwrap().last_frame(),
            forall|n: nat|
                old(self).next_free_frame <= n < final(self).next_free_frame ==> !areas_hold(
                    old(self).areas@,
                    n,
                ),
    {
        let mut best: Option<MemoryArea> = None;
        let mut i: usize = 0;
        let cursor: u64 = self.next_free_frame;
        while i < self.areas.len()
            invariant
                i <= self.areas@.len(),
                Self::areas_in_bounds(self.areas@),
                cursor == self.next_free_frame,
                self.areas == old(self).areas,
                self.reserved_frames == old(self).reserved_frames,
                self.next_free_frame == old(self).next_free_frame,
                match best {
                    Some(b) => {
                        &&& self.areas@.contains(b)
                        &&& b.last_frame() >= cursor
                        &&& forall|j: int|
                            0 <= j < i && (#[trigger] self.areas@[j]).last_frame() >= cursor
                                ==> b.base_addr <= self.areas@[j].base_addr
                    },
                    None => forall|j: int|
                        0 <= j < i ==> (#[trigger] self.areas@[j]).last_frame() < cursor,
                },
            decreases self.areas@.len() - i,
        {
            let area = self.areas[i];
            assert(area.in_bounds());
            if last_frame_of_area(&area) >= cursor {
                let better = match best {
                    Some(b) => area.base_addr < b.base_addr,
                    None => true,
                };
                if better {
                    best = Some(area);
                }
            }
            i = i + 1;
        }
        self.current_area = best;
        if let Some(area) = self.current_area {
            let start_frame: u64 = area.base_addr / 4096;
            if self.next_free_frame < start_frame {
                self.next_free_frame = start_frame;
            }
            proof {
                assert forall|n: nat| cursor <= n < self.next_free_frame implies !areas_hold(
                    self.areas@,
                    n,
                ) by {
                    if areas_hold(self.areas@, n) {
                        let j = choose|j: int|
                            0 <= j < self.areas@.len() && (#[trigger] self.areas@[j]).holds(n);
                        assert(self.areas@[j].last_frame() >= cursor);
                        assert(area.base_addr <= self.areas@[j].base_addr);
                    }
                }
            }
        }
    }

    /// Returns Some(<first frame after first reserved region>) if frame is reserved
    /// or None, though does not check if returned frame is in available memory area
    /// bounds nor in next reserved region.
    fn check_frame_unreserved(&self, frame: u64) -> (r: Option<u64>)
        requires
            frame < FRAME_LIMIT,
        ensures
            r.is_some() <==> is_reserved(self.reserved(), frame as nat),
            r.is_some() ==> r.unwrap() == frame + 1,
    {
        let first = self.reserved_frames[0].0.number() <= frame && frame
            <= self.reserved_frames[0].1.number();
        let second = self.reserved_frames[1].0.number() <= frame && frame
            <= self.reserved_frames[1].1.number();
        proof {
            let reserved = self.reserved();
            if first {
                assert(reserved[0].0 <= frame <= reserved[0].1);
            }
            if second {
                assert(reserved[1].0 <= frame <= reserved[1].1);
            }
        }
        if first || second {
            Some(frame + 1)
        } else {
            None
        }
    }
}

impl FrameAlloc for CoreFrameAlloc {
    closed spec fn wf(&self) -> bool {
        self.inv()
    }

    open spec fn free_frames(&self) -> Set<nat> {
        unused_frames(self.areas(), self.reserved(), self.cursor())
    }

    /// The lowest free frame.
    open spec fn next_frame(&self) -> Option<nat> {
        if exists|n: nat| is_lowest(self.free_frames(), n) {
            Some(choose|n: nat| is_lowest(self.free_frames(), n))
        } else {
            None
        }
    }

    open spec fn accepts(&self, frame: nat) -> bool {
        true
    }

    open spec fn reuses() -> bool {
        false
    }

    /// Returns the lowest free frame, and `None` when no frame is free. The
    /// frames come in strictly ascending order: every frame that stays free
    /// has a higher number than the one returned.
    fn alloc_frame(&mut self) -> (r: Option<Frame>)
        ensures
            final(self).areas() == old(self).areas(),
            final(self).reserved() == old(self).reserved(),
            r.is_some() ==> final(self).cursor() == r.unwrap()@ + 1,
            r.is_some() ==> final(self).free_frames().len() + 1 == old(self).free_frames().len(),
            r.is_some() ==> forall|n: nat| #[trigger]
                old(self).free_frames().contains(n) ==> r.unwrap()@ <= n,
    {
        proof {
            self.lemma_free_frames_finite();
        }
        let ghost start = self.cursor();
        loop
            invariant
                self.inv(),
                self.areas == old(self).areas,
                self.reserved_frames == old(self).reserved_frames,
                start <= self.cursor(),
                old(self).free_frames().finite(),
                self.free_frames() == old(self).free_frames(),
            decreases
                FRAME_LIMIT + 1 - self.next_free_frame,
                (if self.current_area.is_some() && self.next_free_frame
                    > self.current_area.unwrap().last_frame() {
                    1int
                } else {
                    0int
                }),
        {
            let area = match self.current_area {
                Some(area) => area,
                None => {
                    proof {
                        assert(self.free_frames() =~= Set::empty()) by {
                            assert forall|n: nat| !self.free_frames().contains(n) by {
                                if areas_hold(self.areas@, n) && self.cursor() <= n {
                                    let j = choose|j: int|
                                        0 <= j < self.areas@.len() && (
                                        #[trigger] self.areas@[j]).holds(n);
                                    assert(self.areas@[j].last_frame() < self.next_free_frame);
                                }
                            }
                        }
                    }
                    proof {
                        assert(old(self).next_frame().is_none());
                    }
                    return None;
                },
            };
            let frame: u64 = self.next_free_frame;
            proof {
                let j = choose|j: int| 0 <= j < self.areas@.len() && self.areas@[j] == area;
                assert(self.areas@[j].in_bounds());
            }

            // Continue if we have reached end of current memory area.
            if frame > last_frame_of_area(&area) {
                let ghost before = self.free_frames();
                self.pick_next_area();
                proof {
                    assert(self.free_frames() =~= before);
                }
                continue ;
            }
            // If picked frame is reserved, set next frame number to
            // last frame number of colliding reserved range and continue.

            if let Some(next_frame) = self.check_frame_unreserved(frame) {
                let ghost before = self.free_frames();
                self.next_free_frame = next_frame;
                proof {
                    assert(self.free_frames() =~= before);
                }
                continue ;
            }
            // Otherwise, picked frame is available to allocating.

            proof {
                assert(area.holds(frame as nat));
                let j = choose|j: int| 0 <= j < self.areas@.len() && self.areas@[j] == area;
                assert(self.areas@[j].holds(frame as nat));
                assert(self.free_frames().contains(frame as nat));
            }
            let ghost before = self.free_frames();
            self.next_free_frame = frame + 1;
            proof {
                assert(self.free_frames() =~= before.remove(frame as nat));
                assert(before.len() > 0) by {
                    if before.len() == 0 {
                        before.lemma_len0_is_empty();
                    }
                }
                assert(is_lowest(before, frame as nat));
                let lowest = choose|n: nat| is_lowest(before, n);
                assert(is_lowest(before, lowest));
                assert(lowest == frame);
            }
            return Some(Frame::from_number(frame));
        }
    }

    /// Frames are never taken back: the frame is dropped.
    fn dealloc(&mut self, frame: Frame)
        ensures
            final(self).cursor() == old(self).cursor(),
            final(self).areas() == old(self).areas(),
            final(self).reserved() == old(self).reserved(),
    {
    }
}

impl CoreFrameAlloc {
    /// Only finitely many frames are free.
    pub proof fn lemma_free_frames_finite(&self)
        requires
            self.wf(),
        ensures
            self.free_frames().finite(),
    {
        let bound = set_int_range(0, FRAME_LIMIT as int + 1);
        let free = self.free_frames();
        let as_int = free.map(|n: nat| n as int);
        assert(as_int.subset_of(bound)) by {
            assert forall|x: int| as_int.contains(x) implies bound.contains(x) by {
                let n = choose|n: nat| free.contains(n) && x == n as int;
                let j = choose|j: int|
                    0 <= j < self.areas@.len() && (#[trigger] self.areas@[j]).holds(n);
                assert(self.areas@[j].in_bounds());
            }
        }
        lemma_int_range(0, FRAME_LIMIT as int + 1);
        lemma_len_subset(as_int, bound);
        assert(free =~= as_int.map(|x: int| x as nat)) by {
            assert forall|n: nat| free.contains(n) implies as_int.map(|x: int| x as nat).contains(
                n,
            ) by {
                assert(as_int.contains(n as int));
            }
        }
        as_int.lemma_map_finite(|x: int| x as nat);
    }
}

/// The lowest frame of a set of frames, if the set has one.
pub open spec fn is_lowest(frames: Set<nat>, frame: nat) -> bool {
    frames.contains(frame) && forall|n: nat| #[trigger] frames.contains(n) ==> frame <= n
}

/// Frames come in strictly ascending order, each from an area and from no
/// reserved range, and each leaves one frame less: after the lowest frame
/// that is free from a cursor on has been handed out, the frames that are
/// free are those from the next frame on, which are the former ones but
/// that frame, and the lowest of them, if there is one, is higher.
pub proof fn lemma_frames_ascend(
    areas: Seq<MemoryArea>,
    reserved: Seq<(nat, nat)>,
    cursor: nat,
    first: nat,
    second: nat,
)
    requires
        is_lowest(unused_frames(areas, reserved, cursor), first),
        is_lowest(unused_frames(areas, reserved, first + 1), second),
    ensures
        first < second,
        areas_hold(areas, first) && !is_reserved(reserved, first),
        areas_hold(areas, second) && !is_reserved(reserved, second),
        unused_frames(areas, reserved, first + 1) == unused_frames(areas, reserved, cursor).remove(
            first,
        ),
        unused_frames(areas, reserved, cursor).subset_of(unused_frames(areas, reserved, 0)),
{
    assert(unused_frames(areas, reserved, first + 1) =~= unused_frames(
        areas,
        reserved,
        cursor,
    ).remove(first));
}

/// Once no frame is free, none becomes free again: where no frame is free
/// from a cursor on, none is free from any higher cursor on.
pub proof fn lemma_exhausted_for_good(
    areas: Seq<MemoryArea>,
    reserved: Seq<(nat, nat)>,
    cursor: nat,
    later: nat,
)
    requires
        cursor <= later,
        unused_frames(areas, reserved, cursor) == Set::<nat>::empty(),
    ensures
        unused_frames(areas, reserved, later) == Set::<nat>::empty(),
{
    assert forall|n: nat| !unused_frames(areas, reserved, later).contains(n) by {
        if unused_frames(areas, reserved, later).contains(n) {
            assert(unused_frames(areas, reserved, cursor).contains(n));
        }
    }
    assert(unused_frames(areas, reserved, later) =~= Set::<nat>::empty());
}

fn last_frame_of_area(area: &MemoryArea) -> (r: u64)
    requires
        area.in_bounds(),
    ensures
        r == area.last_frame(),
        r < FRAME_LIMIT,
{
    let addr: u64 = if area.length == 0 {
        area.base_addr - 1
    } else {
        area.base_addr + (area.length - 1)
    };
    addr / 4096
}

} // verus!
