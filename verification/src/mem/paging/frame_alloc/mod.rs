//! Frame allocators.

use vstd::prelude::*;

use super::frame::Frame;

pub mod core_frame_alloc;

pub use self::core_frame_alloc::CoreFrameAlloc;

verus! {

/// Common interface for *frame allocators*.
///
/// Frame allocator is a routine which manages used and free frames,
/// it is responsible for providing free frames on request.
pub trait FrameAlloc {
    /// The allocator's own invariant.
    spec fn wf(&self) -> bool;

    /// Numbers of the frames that the allocator can still hand out.
    spec fn free_frames(&self) -> Set<nat>;

    /// The frame that the allocator hands out next, if it has one.
    spec fn next_frame(&self) -> Option<nat>;

    /// Whether the allocator has room to take the frame back.
    spec fn accepts(&self, frame: nat) -> bool;

    /// Whether a frame that is given back becomes free again. An allocator
    /// that does not reuse frames drops them.
    spec fn reuses() -> bool;

    /// Allocate unused frame, or return `None` if all frames are used.
    fn alloc_frame(&mut self) -> (r: Option<Frame>)
        requires
            old(self).wf(),
        ensures
            final(self).wf(),
            old(self).free_frames().finite(),
            r.is_none() <==> old(self).free_frames().len() == 0,
            r.is_none() ==> final(self).free_frames() == old(self).free_frames(),
            r.is_none() ==> old(self).next_frame().is_none(),
            r.is_some() ==> old(self).next_frame() == Some(r.unwrap()@),
            r.is_some()
                ==> old(self).free_frames().contains(r.unwrap()@)
                    && final(self).free_frames() == old(self).free_frames().remove(r.unwrap()@),
            forall|frame: nat| old(self).accepts(frame) ==> #[trigger] final(self).accepts(frame),
    ;

    /// Return frame back to free frames pool. The allocator may keep the
    /// frame for later use or drop it.
    fn dealloc(&mut self, frame: Frame)
        requires
            old(self).wf(),
            old(self).accepts(frame@),
        ensures
            final(self).wf(),
            Self::reuses() ==> final(self).free_frames() == old(self).free_frames().insert(frame@),
            !Self::reuses() ==> final(self).free_frames() == old(self).free_frames(),
    ;
}

} // verus!
