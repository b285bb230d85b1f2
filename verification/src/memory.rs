//! Physical frames and the allocator interface.
//!
//! Addresses and frame numbers are 64-bit quantities fixed by the target
//! architecture, so they are carried as `u64` regardless of the host.

use vstd::prelude::*;

verus! {

/// Size in bytes of one page / frame.
pub const PAGE_SIZE: u64 = 4096;

/// Exclusive upper bound on frame numbers.  A frame's start address must fit
/// in address bits 12..=51 of a table entry, so the number itself fits in 40
/// bits.
pub const FRAME_LIMIT: u64 = 0x100_0000_0000;

pub type PhysicalAddress = u64;

pub type VirtualAddress = u64;

/// A physical page-aligned unit of memory, identified by its ordinal page
/// number (physical address divided by the page size).
#[derive(Debug, PartialEq, Eq, Structural)]
pub struct Frame {
    pub number: u64,
}

impl Frame {
    /// The frame containing the given physical address.
    pub fn containing_address(addr: u64) -> (r: Frame)
        ensures
            r.number == addr / PAGE_SIZE,
    {
        Frame { number: addr / PAGE_SIZE }
    }

    /// The physical address at which this frame starts.
    pub fn start_address(&self) -> (r: PhysicalAddress)
        requires
            self.number < FRAME_LIMIT,
        ensures
            r == self.number * PAGE_SIZE,
    {
        self.number * PAGE_SIZE
    }

    /// An explicit copy.  `Frame` deliberately does not implement `Clone`:
    /// a frame value stands for ownership of the underlying memory, and
    /// copies are made only where the design calls for them.
    pub fn clone(&self) -> (r: Frame)
        ensures
            r == *self,
    {
        Frame { number: self.number }
    }

    /// All frames from `start` to `end`, both inclusive.
    pub fn range_inclusive(start: Frame, end: Frame) -> (r: FrameIter)
        ensures
            r.start == start,
            r.end == end,
    {
        FrameIter { start, end }
    }
}

/// Walks a frame range in increasing order; `next` yields each frame once.
pub struct FrameIter {
    pub start: Frame,
    pub end: Frame,
}

impl FrameIter {
    /// The next frame of the range, if one is left.
    pub fn next(&mut self) -> (r: Option<Frame>)
        requires
            old(self).end.number < FRAME_LIMIT,
        ensures
            final(self).end == old(self).end,
            old(self).start.number <= old(self).end.number ==> r == Some(Frame {
                number: old(self).start.number,
            }) && final(self).start.number == old(self).start.number + 1,
            old(self).start.number > old(self).end.number ==> r == None::<Frame>
                && final(self).start == old(self).start,
    {
        if self.start.number <= self.end.number {
            let frame = self.start.clone();
            self.start.number = self.start.number + 1;
            Some(frame)
        } else {
            None
        }
    }
}

/// A source of unused physical frames.
///
/// `available()` is the set of frame numbers the allocator may still hand
/// out.  Allocation draws one element from that set, so distinct allocations
/// never alias, and a caller that keeps its own frames disjoint from
/// `available()` knows that allocated frames are fresh.
pub trait FrameAllocator: Sized {
    /// Frame numbers this allocator may still return.
    spec fn available(&self) -> Set<int>;

    /// The allocator's internal invariant.
    spec fn inv(&self) -> bool;

    /// Whether a frame may be handed back to this allocator.
    spec fn can_deallocate(&self, frame: Frame) -> bool;

    /// The set of obtainable frames is finite.
    proof fn available_finite(&self)
        ensures
            self.available().finite(),
    ;

    /// Hand out one unused frame, or nothing when the pool is exhausted.
    fn allocate_frame(&mut self) -> (r: Option<Frame>)
        requires
            old(self).inv(),
        ensures
            final(self).inv(),
            match r {
                Some(f) => old(self).available().contains(f.number as int)
                    && final(self).available() =~= old(self).available().remove(f.number as int),
                None => old(self).available().is_empty() && final(self).available().is_empty(),
            },
    ;

    /// Return a previously allocated frame to the pool.
    fn deallocate_frame(&mut self, frame: Frame)
        requires
            old(self).inv(),
            old(self).can_deallocate(frame),
        ensures
            final(self).inv(),
            final(self).available() =~= old(self).available().insert(frame.number as int),
    ;
}

} // verus!
