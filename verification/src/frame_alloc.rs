//! The bootstrap ("area") frame allocator.
//!
//! It is constructed from the physical memory map reported at boot, the
//! address range of the kernel image and the address range of the boot
//! information blob, and hands out frames in increasing physical-address
//! order while skipping both reserved ranges.

use vstd::prelude::*;
use vstd::arithmetic::div_mod::lemma_div_is_ordered;
use vstd::set_lib::lemma_int_range;
use vstd::set_lib::lemma_len_subset;
use vstd::set_lib::set_int_range;
use crate::memory::{Frame, FrameAllocator, FRAME_LIMIT, PAGE_SIZE};

verus! {

/// Exclusive upper bound on physical addresses handled by the allocator:
/// the architecture's 52-bit physical address width.
pub const ADDR_LIMIT: u64 = 0x10_0000_0000_0000;

/// One half-open byte range of usable physical memory, as reported by the
/// boot-time memory map.
#[derive(Debug, Clone, Copy, PartialEq, Eq, Structural)]
pub struct MemoryArea {
    pub base_addr: u64,
    pub length: u64,
}

/// An area is non-empty and lies below the physical address limit.
pub open spec fn area_wf(a: MemoryArea) -> bool {
    1 <= a.length && a.base_addr + a.length <= ADDR_LIMIT
}

/// Number of the first frame touching the area.
pub open spec fn area_first(a: MemoryArea) -> int {
    a.base_addr as int / PAGE_SIZE as int
}

/// Number of the last frame touching the area.
pub open spec fn area_last(a: MemoryArea) -> int {
    (a.base_addr + a.length - 1) / PAGE_SIZE as int
}

/// Whether frame number `n` lies in one of the areas.
pub open spec fn in_areas(areas: Seq<MemoryArea>, n: int) -> bool {
    exists|i: int|
        0 <= i < areas.len() && area_first(#[trigger] areas[i]) <= n <= area_last(areas[i])
}

/// Number of areas whose last frame is at least `nf`; these are the areas
/// the allocator can still draw from.
spec fn count_live(areas: Seq<MemoryArea>, nf: int) -> int
    decreases areas.len(),
{
    if areas.len() == 0 {
        0
    } else {
        count_live(areas.drop_last(), nf) + if area_last(areas.last()) >= nf {
            1int
        } else {
            0int
        }
    }
}

proof fn lemma_count_live_bounds(areas: Seq<MemoryArea>, nf: int)
    ensures
        0 <= count_live(areas, nf) <= areas.len(),
    decreases areas.len(),
{
    if areas.len() > 0 {
        lemma_count_live_bounds(areas.drop_last(), nf);
    }
}

proof fn lemma_count_live_mono(areas: Seq<MemoryArea>, a: int, b: int)
    requires
        a <= b,
    ensures
        count_live(areas, b) <= count_live(areas, a),
    decreases areas.len(),
{
    if areas.len() > 0 {
        lemma_count_live_mono(areas.drop_last(), a, b);
    }
}

/// The bootstrap allocator.  It keeps a cursor frame and the currently
/// considered area, and issues the lowest candidate frame not yet passed.
pub struct AreaFrameAllocator {
    next_free_frame: Frame,
    current_area: Option<MemoryArea>,
    areas: Vec<MemoryArea>,
    kernel_start: Frame,
    kernel_end: Frame,
    mb_start: Frame,
    mb_end: Frame,
}

impl AreaFrameAllocator {
    /// Frame number `n` lies in the kernel's or the boot-info blob's
    /// reserved range.
    pub closed spec fn reserved_frame(self, n: int) -> bool {
        (self.kernel_start.number <= n <= self.kernel_end.number) || (self.mb_start.number <= n
            <= self.mb_end.number)
    }

    /// Frame number `n` lies in some reported area and outside the reserved
    /// ranges.
    pub closed spec fn candidate(self, n: int) -> bool {
        in_areas(self.areas@, n) && !self.reserved_frame(n)
    }

    /// The frames this allocator can still hand out: every candidate the
    /// cursor has not passed yet.
    pub closed spec fn frames_left(self) -> Set<int> {
        Set::new(|n: int| self.next_free_frame.number <= n && self.candidate(n))
    }

    /// Bounds on the fields that all operations preserve.
    spec fn wf_fields(self) -> bool {
        &&& forall|i: int| 0 <= i < self.areas@.len() ==> area_wf(#[trigger] self.areas@[i])
        &&& self.kernel_end.number < ADDR_LIMIT
        &&& self.mb_end.number < ADDR_LIMIT
        &&& self.next_free_frame.number <= ADDR_LIMIT + 1
    }

    /// Well-formedness: field bounds, plus the meaning of `current_area`.
    /// When an area is current, the cursor has reached it; when none is,
    /// every area has been exhausted.
    pub closed spec fn wf(self) -> bool {
        &&& self.wf_fields()
        &&& match self.current_area {
            Some(a) => (exists|i: int|
                0 <= i < self.areas@.len() && self.areas@[i] == a) && area_first(a)
                <= self.next_free_frame.number,
            None => forall|i: int|
                0 <= i < self.areas@.len() ==> area_last(#[trigger] self.areas@[i])
                    < self.next_free_frame.number,
        }
    }

    /// One successful allocation: `f` was the least obtainable frame of
    /// `pre`, it is not reserved, and `post` can hand out exactly the rest.
    pub open spec fn alloc_step(pre: AreaFrameAllocator, f: Frame, post: AreaFrameAllocator) -> bool {
        &&& pre.wf()
        &&& post.wf()
        &&& pre.frames_left().contains(f.number as int)
        &&& forall|m: int| pre.frames_left().contains(m) ==> m >= f.number as int
        &&& post.frames_left() =~= pre.frames_left().remove(f.number as int)
        &&& forall|n: int| post.reserved_frame(n) == pre.reserved_frame(n)
        &&& !pre.reserved_frame(f.number as int)
        &&& f.number < FRAME_LIMIT
    }

    /// Construct the allocator from the kernel range, the boot-info range
    /// and the reported memory areas (all as byte addresses).  Both ranges
    /// are half-open: the reserved frames are those containing a byte of
    /// `[start, end)`, so an empty range reserves nothing.
    pub fn new(
        kernel_start: u64,
        kernel_end: u64,
        mb_start: u64,
        mb_end: u64,
        memory_areas: Vec<MemoryArea>,
    ) -> (r: AreaFrameAllocator)
        requires
            forall|i: int| 0 <= i < memory_areas@.len() ==> area_wf(#[trigger] memory_areas@[i]),
            kernel_start <= kernel_end,
            mb_start <= mb_end,
            kernel_end < ADDR_LIMIT * PAGE_SIZE,
            mb_end < ADDR_LIMIT * PAGE_SIZE,
        ensures
            r.wf(),
            r.inv(),
            r.frames_left() =~= Set::new(
                |n: int|
                    in_areas(memory_areas@, n) && !(kernel_start < kernel_end && kernel_start
                        / PAGE_SIZE <= n <= (kernel_end - 1) / (PAGE_SIZE as int)) && !(mb_start < mb_end
                        && mb_start / PAGE_SIZE <= n <= (mb_end - 1) / (PAGE_SIZE as int)),
            ),
            forall|n: int|
                r.reserved_frame(n) == ((kernel_start < kernel_end && kernel_start / PAGE_SIZE <= n
                    <= (kernel_end - 1) / (PAGE_SIZE as int)) || (mb_start < mb_end && mb_start / PAGE_SIZE
                    <= n <= (mb_end - 1) / (PAGE_SIZE as int))),
    {
        let kernel_range = if kernel_start < kernel_end {
            (Frame::containing_address(kernel_start), Frame::containing_address(kernel_end - 1))
        } else {
            (Frame { number: 1 }, Frame { number: 0 })
        };
        let mb_range = if mb_start < mb_end {
            (Frame::containing_address(mb_start), Frame::containing_address(mb_end - 1))
        } else {
            (Frame { number: 1 }, Frame { number: 0 })
        };
        let mut allocator = AreaFrameAllocator {
            next_free_frame: Frame::containing_address(0),
            current_area: None,
            areas: memory_areas,
            kernel_start: kernel_range.0,
            kernel_end: kernel_range.1,
            mb_start: mb_range.0,
            mb_end: mb_range.1,
        };
        proof {
            if kernel_start < kernel_end {
                assert(allocator.kernel_end.number < ADDR_LIMIT) by {
                    lemma_div_is_ordered(
                        kernel_end - 1,
                        (ADDR_LIMIT * PAGE_SIZE - 1) as int,
                        PAGE_SIZE as int,
                    );
                };
            }
            if mb_start < mb_end {
                assert(allocator.mb_end.number < ADDR_LIMIT) by {
                    lemma_div_is_ordered(
                        mb_end - 1,
                        (ADDR_LIMIT * PAGE_SIZE - 1) as int,
                        PAGE_SIZE as int,
                    );
                };
            }
        }
        allocator.choose_next_area();
        allocator
    }

    /// Pick, among the areas whose last frame the cursor has not passed,
    /// the one with the lowest base address, and raise the cursor to its
    /// first frame.  Frames skipped this way lie in no area, so the set of
    /// obtainable frames is unchanged.
    fn choose_next_area(&mut self)
        requires
            old(self).wf_fields(),
        ensures
            final(self).wf(),
            final(self).frames_left() =~= old(self).frames_left(),
            final(self).next_free_frame.number >= old(self).next_free_frame.number,
            final(self).areas == old(self).areas,
            final(self).kernel_start == old(self).kernel_start,
            final(self).kernel_end == old(self).kernel_end,
            final(self).mb_start == old(self).mb_start,
            final(self).mb_end == old(self).mb_end,
            match final(self).current_area {
                Some(a) => area_last(a) >= final(self).next_free_frame.number,
                None => true,
            },
    {
        let nf = self.next_free_frame.number;
        let mut best: Option<MemoryArea> = None;
        let mut i: usize = 0;
        while i < self.areas.len()
            invariant
                self.wf_fields(),
                nf == self.next_free_frame.number,
                0 <= i <= self.areas@.len(),
                match best {
                    Some(b) => {
                        &&& exists|j: int| 0 <= j < i && self.areas@[j] == b
                        &&& area_last(b) >= nf
                        &&& forall|j: int|
                            0 <= j < i && area_last(#[trigger] self.areas@[j]) >= nf
                                ==> b.base_addr <= self.areas@[j].base_addr
                    },
                    None => forall|j: int|
                        0 <= j < i ==> area_last(#[trigger] self.areas@[j]) < nf,
                },
            decreases self.areas@.len() - i,
        {
            let a = self.areas[i];
            let last_frame = (a.base_addr + a.length - 1) / PAGE_SIZE;
            if last_frame >= nf {
                best = match best {
                    None => Some(a),
                    Some(b) => if a.base_addr < b.base_addr {
                        Some(a)
                    } else {
                        Some(b)
                    },
                };
            }
            i = i + 1;
        }
        self.current_area = best;
        if let Some(area) = self.current_area {
            let start_frame = Frame::containing_address(area.base_addr);
            if self.next_free_frame.number < start_frame.number {
                proof {
                    lemma_first_le_last(area);
                    assert forall|n: int|
                        old(self).next_free_frame.number <= n && self.candidate(n) implies n
                        >= area_first(area) by {
                        let j = choose|j: int|
                            0 <= j < self.areas@.len() && area_first(#[trigger] self.areas@[j]) <= n
                                <= area_last(self.areas@[j]);
                        assert(area_last(self.areas@[j]) >= n >= old(self).next_free_frame.number);
                        assert(area.base_addr <= self.areas@[j].base_addr);
                        lemma_div_is_ordered(
                            area.base_addr as int,
                            self.areas@[j].base_addr as int,
                            PAGE_SIZE as int,
                        );
                    };
                }
                self.next_free_frame = start_frame;
                proof {
                    assert(self.frames_left() =~= old(self).frames_left());
                }
            }
        }
    }
}

impl AreaFrameAllocator {
    /// Number of reserved-range skips the cursor has not performed yet.
    spec fn skips_left(self) -> int {
        (if self.next_free_frame.number <= self.kernel_end.number {
            1int
        } else {
            0int
        }) + (if self.next_free_frame.number <= self.mb_end.number {
            1int
        } else {
            0int
        })
    }

    /// Whether the current area has been exhausted by the cursor.
    spec fn stale(self) -> int {
        match self.current_area {
            Some(a) => if area_last(a) < self.next_free_frame.number {
                1int
            } else {
                0int
            },
            None => 0int,
        }
    }

    /// Hand out the lowest frame that lies in a reported area, past the
    /// cursor and outside the reserved ranges; fail exactly when no such
    /// frame is left.
    pub fn allocate_frame(&mut self) -> (r: Option<Frame>)
        requires
            old(self).wf(),
        ensures
            match r {
                Some(f) => AreaFrameAllocator::alloc_step(*old(self), f, *final(self)),
                None => final(self).wf() && old(self).frames_left().is_empty()
                    && final(self).frames_left().is_empty() && (forall|n: int|
                    final(self).reserved_frame(n) == old(self).reserved_frame(n)),
            },
    {
        loop
            invariant
                old(self).wf(),
                self.wf(),
                self.frames_left() =~= old(self).frames_left(),
                forall|n: int| self.reserved_frame(n) == old(self).reserved_frame(n),
            decreases self.skips_left(), count_live(self.areas@, self.next_free_frame.number as int), self.stale(),
        {
            proof {
                lemma_count_live_bounds(self.areas@, self.next_free_frame.number as int);
            }
            match self.current_area {
                None => {
                    proof {
                        assert forall|n: int| !self.frames_left().contains(n) by {
                            if self.candidate(n) {
                                let j = choose|j: int|
                                    0 <= j < self.areas@.len() && area_first(
                                        #[trigger] self.areas@[j],
                                    ) <= n <= area_last(self.areas@[j]);
                                assert(area_last(self.areas@[j]) < self.next_free_frame.number);
                            }
                        };
                        assert(self.frames_left() =~= Set::<int>::empty());
                    }
                    return None;
                },
                Some(area) => {
                    let ghost prev = *self;
                    let frame_number = self.next_free_frame.number;
                    let current_area_last = (area.base_addr + area.length - 1) / PAGE_SIZE;
                    if frame_number > current_area_last {
                        self.choose_next_area();
                        proof {
                            lemma_count_live_bounds(
                                self.areas@,
                                self.next_free_frame.number as int,
                            );
                            lemma_count_live_mono(
                                self.areas@,
                                prev.next_free_frame.number as int,
                                self.next_free_frame.number as int,
                            );
                        }
                    } else if frame_number >= self.kernel_start.number && frame_number
                        <= self.kernel_end.number {
                        self.next_free_frame = Frame { number: self.kernel_end.number + 1 };
                        proof {
                            assert(self.frames_left() =~= prev.frames_left()) by {
                                assert forall|n: int|
                                    prev.frames_left().contains(n) implies self.frames_left().contains(
                                    n,
                                ) by {
                                    assert(!self.reserved_frame(n));
                                };
                            };
                            lemma_count_live_bounds(
                                self.areas@,
                                self.next_free_frame.number as int,
                            );
                            lemma_count_live_mono(
                                self.areas@,
                                prev.next_free_frame.number as int,
                                self.next_free_frame.number as int,
                            );
                        }
                    } else if frame_number >= self.mb_start.number && frame_number
                        <= self.mb_end.number {
                        self.next_free_frame = Frame { number: self.mb_end.number + 1 };
                        proof {
                            assert(self.frames_left() =~= prev.frames_left()) by {
                                assert forall|n: int|
                                    prev.frames_left().contains(n) implies self.frames_left().contains(
                                    n,
                                ) by {
                                    assert(!self.reserved_frame(n));
                                };
                            };
                            lemma_count_live_bounds(
                                self.areas@,
                                self.next_free_frame.number as int,
                            );
                            lemma_count_live_mono(
                                self.areas@,
                                prev.next_free_frame.number as int,
                                self.next_free_frame.number as int,
                            );
                        }
                    } else {
                        proof {
                            let j = choose|j: int|
                                0 <= j < self.areas@.len() && self.areas@[j] == area;
                            assert(area_wf(self.areas@[j]));
                            lemma_first_le_last(area);
                            assert(self.candidate(frame_number as int)) by {
                                assert(area_first(self.areas@[j]) <= frame_number as int
                                    <= area_last(self.areas@[j]));
                            };
                        }
                        let frame = Frame { number: frame_number };
                        self.next_free_frame = Frame { number: frame_number + 1 };
                        proof {
                            assert(self.frames_left() =~= prev.frames_left().remove(
                                frame_number as int,
                            ));
                            let j = choose|j: int|
                                0 <= j < prev.areas@.len() && prev.areas@[j] == area;
                            assert(0 <= j < self.areas@.len() && self.areas@[j] == area);
                        }
                        return Some(frame);
                    }
                },
            }
        }
    }
}

impl FrameAllocator for AreaFrameAllocator {
    /// The obtainable frames are exactly those the cursor has not passed.
    closed spec fn available(&self) -> Set<int> {
        self.frames_left()
    }

    /// The allocator's invariant is its well-formedness.
    closed spec fn inv(&self) -> bool {
        self.wf()
    }

    /// The bootstrap allocator never takes frames back.
    closed spec fn can_deallocate(&self, frame: Frame) -> bool {
        false
    }

    proof fn available_finite(&self) {
        let bound: int = 0x2_0000_0000_0000_0000;
        assert forall|n: int| self.frames_left().contains(n) implies set_int_range(
            0,
            bound,
        ).contains(n) by {
            let j = choose|j: int|
                0 <= j < self.areas@.len() && area_first(#[trigger] self.areas@[j]) <= n
                    <= area_last(self.areas@[j]);
            lemma_div_is_ordered(
                self.areas@[j].base_addr + self.areas@[j].length - 1,
                0x1_FFFF_FFFF_FFFF_FFFEint,
                PAGE_SIZE as int,
            );
        };
        lemma_int_range(0, bound);
        lemma_len_subset(self.frames_left(), set_int_range(0, bound));
    }

    fn allocate_frame(&mut self) -> (r: Option<Frame>) {
        self.allocate_frame()
    }

    fn deallocate_frame(&mut self, _frame: Frame) {
    }
}

/// Monotonic issuance: two consecutive successful allocations return
/// strictly increasing frame numbers.
pub proof fn lemma_allocation_monotonic(
    a0: AreaFrameAllocator,
    f1: Frame,
    a1: AreaFrameAllocator,
    f2: Frame,
    a2: AreaFrameAllocator,
)
    requires
        AreaFrameAllocator::alloc_step(a0, f1, a1),
        AreaFrameAllocator::alloc_step(a1, f2, a2),
    ensures
        f1.number < f2.number,
{
    assert(a0.frames_left().contains(f2.number as int));
}

/// An allocation never returns a frame from the configured kernel or
/// boot-info ranges.
pub proof fn lemma_allocation_avoids_reserved(
    a0: AreaFrameAllocator,
    f: Frame,
    a1: AreaFrameAllocator,
)
    requires
        AreaFrameAllocator::alloc_step(a0, f, a1),
    ensures
        !a0.reserved_frame(f.number as int),
{
}

/// An area's first frame is not past its last frame.
proof fn lemma_first_le_last(a: MemoryArea)
    requires
        area_wf(a),
    ensures
        area_first(a) <= area_last(a),
        0 <= area_first(a),
        area_last(a) < FRAME_LIMIT,
{
    lemma_div_is_ordered(a.base_addr as int, a.base_addr + a.length - 1, PAGE_SIZE as int);
    lemma_div_is_ordered(a.base_addr + a.length - 1, ADDR_LIMIT - 1, PAGE_SIZE as int);
}

} // verus!
