//! Physical frames and the allocator interface.
//!
//! A `Frame` stands for one 4 KiB slice of physical memory, identified by its
//! number (physical address divided by the page size).  Outside this crate a
//! frame is a move-only token: the only way to obtain one is to ask an
//! allocator, and duplication is private to the crate, so a caller holding a
//! frame knows no other caller holds the same one.

use vstd::prelude::*;

verus! {

use crate::PAGE_SIZE;

/// One 4 KiB unit of physical memory.
#[derive(Debug)]
pub struct Frame {
    number: u64,
}

impl Frame {
    /// The frame number (physical address divided by the page size).
    pub closed spec fn num(self) -> u64 {
        self.number
    }

    /// The frame holding the given physical address.
    pub(crate) fn containing_address(addr: u64) -> (r: Frame)
        ensures
            r.num() == addr / PAGE_SIZE,
    {
        Frame { number: addr / PAGE_SIZE }
    }

    /// The frame with the given number.
    pub(crate) fn from_number(n: u64) -> (r: Frame)
        ensures
            r.num() == n,
    {
        Frame { number: n }
    }

    /// The frame number, as a plain value.
    pub fn number(&self) -> (r: u64)
        ensures
            r == self.num(),
    {
        self.number
    }

    /// Physical address of the first byte of the frame.
    pub fn start_address(&self) -> (r: u64)
        requires
            self.num() * PAGE_SIZE <= u64::MAX,
        ensures
            r == self.num() * PAGE_SIZE,
    {
        self.number * PAGE_SIZE
    }

    /// Duplicating a frame is privileged: only the allocator layer and the
    /// entry-writing path may do it, which keeps frames move-only tokens for
    /// external callers.
    pub(crate) fn clone(&self) -> (r: Frame)
        ensures
            r.num() == self.num(),
    {
        Frame { number: self.number }
    }

    /// Iterator over the frames from `start` to `end`, both included.
    pub fn range_inclusive(start: Frame, end: Frame) -> (r: FrameIter)
        ensures
            r.cur() == start.num(),
            r.last() == end.num(),
    {
        FrameIter { start, end }
    }
}

/// Inclusive iterator over a range of frames.
#[derive(Debug)]
pub struct FrameIter {
    start: Frame,
    end: Frame,
}

impl FrameIter {
    /// Number of the next frame the iterator would yield.
    pub closed spec fn cur(self) -> u64 {
        self.start.num()
    }

    /// Number of the last frame of the range.
    pub closed spec fn last(self) -> u64 {
        self.end.num()
    }

    /// The next frame of the range, if one is left.
    pub fn next(&mut self) -> (r: Option<Frame>)
        requires
            old(self).cur() < u64::MAX,
        ensures
            final(self).last() == old(self).last(),
            old(self).cur() <= old(self).last() ==> {
                &&& r matches Some(f) && f.num() == old(self).cur()
                &&& final(self).cur() == old(self).cur() + 1
            },
            old(self).cur() > old(self).last() ==> r is None && final(self).cur() == old(
                self,
            ).cur(),
    {
        if self.start.number <= self.end.number {
            let frame = self.start.clone();
            self.start.number = self.start.number + 1;
            Some(frame)
        } else {
            None
        }
    }
}

/// Source of physical frames.
///
/// `avail()` is the set of frame numbers the allocator may still hand out.
/// Allocation removes exactly the returned frame from that set, so a frame is
/// never returned twice, and two allocators whose sets are disjoint never
/// return the same frame.
pub trait FrameAllocator: Sized {
    /// Frame numbers this allocator may still return.
    spec fn avail(&self) -> Set<u64>;

    /// Structural invariant of the allocator.
    spec fn wf(&self) -> bool;

    /// Whether handing the frame back is accepted (the area allocator leaks
    /// instead, and the three-slot allocator only refills an empty slot).
    spec fn can_dealloc(&self, n: u64) -> bool;

    /// The set of frames still available is finite.
    proof fn avail_finite(&self)
        requires
            self.wf(),
        ensures
            self.avail().finite(),
    ;

    /// Hand out one frame, or report exhaustion with `None`.
    fn allocate_frame(&mut self) -> (r: Option<Frame>)
        requires
            old(self).wf(),
        ensures
            final(self).wf(),
            match r {
                Some(f) => {
                    &&& old(self).avail().contains(f.num())
                    &&& final(self).avail() == old(self).avail().remove(f.num())
                    &&& f.num() * PAGE_SIZE <= u64::MAX
                },
                None => {
                    &&& final(self).avail() == old(self).avail()
                    &&& old(self).avail().is_empty()
                },
            },
    ;

    /// Take a frame back.
    fn deallocate_frame(&mut self, frame: Frame)
        requires
            old(self).wf(),
            old(self).can_dealloc(frame.num()),
            !old(self).avail().contains(frame.num()),
            frame.num() * PAGE_SIZE <= u64::MAX,
        ensures
            final(self).wf(),
            final(self).avail() == old(self).avail().insert(frame.num()),
    ;
}

} // verus!
