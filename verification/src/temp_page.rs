//! The temporary page and its private three-frame allocator.
//!
//! The temporary page is one reserved, otherwise-unmapped virtual page used
//! to reach a single physical frame through the currently active hierarchy.
//! Its private allocator holds at most three frames: enough to materialize
//! the up-to-three intermediate tables the page's own mapping may need, so
//! no general allocator call happens in the middle of an edit.

use vstd::prelude::*;
use crate::entry::{EntryFlags, WRITABLE};
use crate::memory::{Frame, FrameAllocator, FRAME_LIMIT};
use crate::mapper::Mapper;
use crate::paging::{p4_index_spec, page_valid, ActivePageTable, Page};

verus! {

/// The frame a filled slot can hand out.
pub open spec fn slot_set(o: Option<Frame>) -> Set<int> {
    match o {
        Some(f) => Set::empty().insert(f.number as int),
        None => Set::empty(),
    }
}

/// A fixed-capacity pool of at most three frames.
pub struct TinyAllocator {
    slot0: Option<Frame>,
    slot1: Option<Frame>,
    slot2: Option<Frame>,
}

impl TinyAllocator {
    /// Draw up to three frames from the given allocator into the pool;
    /// slots stay empty when the allocator runs out.
    pub fn new<A: FrameAllocator>(allocator: &mut A) -> (r: TinyAllocator)
        requires
            old(allocator).inv(),
            forall|m: int| old(allocator).available().contains(m) ==> 0 <= m < FRAME_LIMIT,
        ensures
            r.inv(),
            final(allocator).inv(),
            final(allocator).available().subset_of(old(allocator).available()),
            r.available().disjoint(final(allocator).available()),
            r.available() =~= old(allocator).available().difference(
                final(allocator).available(),
            ),
            forall|m: int| r.available().contains(m) ==> 0 <= m < FRAME_LIMIT,
            forall|m: int| final(allocator).available().contains(m) ==> 0 <= m < FRAME_LIMIT,
            old(allocator).available().len() >= 3 ==> r.available().len() == 3
                && final(allocator).available().len() == old(allocator).available().len() - 3,
    {
        proof {
            allocator.available_finite();
        }
        let f0 = allocator.allocate_frame();
        proof {
            allocator.available_finite();
        }
        let f1 = allocator.allocate_frame();
        proof {
            allocator.available_finite();
        }
        let f2 = allocator.allocate_frame();
        let r = TinyAllocator { slot0: f0, slot1: f1, slot2: f2 };
        proof {
            assert(r.available() =~= old(allocator).available().difference(
                allocator.available(),
            ));
            if old(allocator).available().len() >= 3 {
                assert(!old(allocator).available().is_empty()) by {
                    assert(Set::<int>::empty().len() == 0);
                };
                let a0 = f0->Some_0.number as int;
                assert(r.slot0 is Some);
                let av1 = old(allocator).available().remove(a0);
                assert(av1.len() >= 2);
                assert(!av1.is_empty()) by {
                    assert(Set::<int>::empty().len() == 0);
                };
                assert(r.slot1 is Some);
                let a1 = f1->Some_0.number as int;
                let av2 = av1.remove(a1);
                assert(av2.len() >= 1);
                assert(!av2.is_empty()) by {
                    assert(Set::<int>::empty().len() == 0);
                };
                assert(r.slot2 is Some);
                let a2 = f2->Some_0.number as int;
                assert(r.available() =~= Set::<int>::empty().insert(a0).insert(a1).insert(a2));
                assert(a0 != a1 && a0 != a2 && a1 != a2);
                assert(Set::<int>::empty().insert(a0).insert(a1).insert(a2).len() == 3) by {
                    assert(Set::<int>::empty().len() == 0);
                };
            }
        }
        r
    }
}

impl TinyAllocator {
    /// The pool holds at most three frames, and a slot is free exactly
    /// when fewer than three are held.
    proof fn lemma_pool_len(self)
        requires
            self.inv(),
        ensures
            self.available().finite(),
            self.available().len() <= 3,
            (self.slot0 is None || self.slot1 is None || self.slot2 is None)
                <==> self.available().len() < 3,
    {
        if self.slot0 is Some && self.slot1 is Some && self.slot2 is Some {
            let a0 = self.slot0->Some_0.number as int;
            let a1 = self.slot1->Some_0.number as int;
            let a2 = self.slot2->Some_0.number as int;
            assert(self.available() =~= Set::<int>::empty().insert(a0).insert(a1).insert(a2));
            assert(Set::<int>::empty().len() == 0);
            assert(self.available().len() == 3);
        } else {
            assert(Set::<int>::empty().len() == 0);
            if self.slot0 is None {
                assert(self.available() =~= slot_set(self.slot1).union(slot_set(self.slot2)));
                lemma_two_slot_len(self.slot1, self.slot2);
            } else if self.slot1 is None {
                assert(self.available() =~= slot_set(self.slot0).union(slot_set(self.slot2)));
                lemma_two_slot_len(self.slot0, self.slot2);
            } else {
                assert(self.available() =~= slot_set(self.slot0).union(slot_set(self.slot1)));
                lemma_two_slot_len(self.slot0, self.slot1);
            }
        }
    }

    /// Number of free slots in the pool.
    fn room(&self) -> (r: usize)
        requires
            self.inv(),
        ensures
            r as int == 3 - self.available().len(),
            r <= 3,
    {
        proof {
            self.lemma_pool_len();
            lemma_pool_len_parts(*self);
        }
        let mut r: usize = 0;
        if self.slot0.is_none() {
            r = r + 1;
        }
        if self.slot1.is_none() {
            r = r + 1;
        }
        if self.slot2.is_none() {
            r = r + 1;
        }
        r
    }

    /// Return a frame to the pool; it is taken whenever a slot is free and
    /// the frame is not already pooled.
    fn put_back(&mut self, frame: Frame) -> (ok: bool)
        requires
            old(self).inv(),
            frame.number < FRAME_LIMIT,
        ensures
            final(self).inv(),
            ok ==> !old(self).available().contains(frame.number as int) && final(self).available()
                =~= old(self).available().insert(frame.number as int),
            !ok ==> *final(self) == *old(self),
            old(self).available().len() < 3 && !old(self).available().contains(frame.number as int)
                ==> ok,
    {
        proof {
            self.lemma_pool_len();
        }
        let has_room = self.slot0.is_none() || self.slot1.is_none() || self.slot2.is_none();
        let pooled = (match &self.slot0 {
            Some(f) => f.number == frame.number,
            None => false,
        }) || (match &self.slot1 {
            Some(f) => f.number == frame.number,
            None => false,
        }) || (match &self.slot2 {
            Some(f) => f.number == frame.number,
            None => false,
        });
        if !has_room || pooled {
            return false;
        }
        if self.slot0.is_none() {
            self.slot0 = Some(frame);
        } else if self.slot1.is_none() {
            self.slot1 = Some(frame);
        } else {
            self.slot2 = Some(frame);
        }
        proof {
            assert(self.available() =~= old(self).available().insert(frame.number as int));
        }
        true
    }
}

/// The union of two slot sets has at most two elements.
proof fn lemma_two_slot_len(a: Option<Frame>, b: Option<Frame>)
    ensures
        slot_set(a).union(slot_set(b)).finite(),
        slot_set(a).union(slot_set(b)).len() <= 2,
{
    assert(Set::<int>::empty().len() == 0);
    match (a, b) {
        (Some(x), Some(y)) => {
            assert(slot_set(a).union(slot_set(b)) =~= Set::<int>::empty().insert(
                x.number as int,
            ).insert(y.number as int));
        },
        (Some(x), None) => {
            assert(slot_set(a).union(slot_set(b)) =~= Set::<int>::empty().insert(
                x.number as int,
            ));
        },
        (None, Some(y)) => {
            assert(slot_set(a).union(slot_set(b)) =~= Set::<int>::empty().insert(
                y.number as int,
            ));
        },
        (None, None) => {
            assert(slot_set(a).union(slot_set(b)) =~= Set::<int>::empty());
        },
    }
}

/// Free slots and held frames always account for all three slots.
proof fn lemma_pool_len_parts(a: TinyAllocator)
    requires
        a.inv(),
    ensures
        a.available().len() == (if a.slot0 is Some {
            1int
        } else {
            0int
        }) + (if a.slot1 is Some {
            1int
        } else {
            0int
        }) + (if a.slot2 is Some {
            1int
        } else {
            0int
        }),
{
    assert(Set::<int>::empty().len() == 0);
    match (a.slot0, a.slot1, a.slot2) {
        (Some(x), Some(y), Some(z)) => {
            assert(a.available() =~= Set::<int>::empty().insert(x.number as int).insert(
                y.number as int,
            ).insert(z.number as int));
        },
        (Some(x), Some(y), None) => {
            assert(a.available() =~= Set::<int>::empty().insert(x.number as int).insert(
                y.number as int,
            ));
        },
        (Some(x), None, Some(z)) => {
            assert(a.available() =~= Set::<int>::empty().insert(x.number as int).insert(
                z.number as int,
            ));
        },
        (None, Some(y), Some(z)) => {
            assert(a.available() =~= Set::<int>::empty().insert(y.number as int).insert(
                z.number as int,
            ));
        },
        (Some(x), None, None) => {
            assert(a.available() =~= Set::<int>::empty().insert(x.number as int));
        },
        (None, Some(y), None) => {
            assert(a.available() =~= Set::<int>::empty().insert(y.number as int));
        },
        (None, None, Some(z)) => {
            assert(a.available() =~= Set::<int>::empty().insert(z.number as int));
        },
        (None, None, None) => {
            assert(a.available() =~= Set::<int>::empty());
        },
    }
}

impl FrameAllocator for TinyAllocator {
    /// Frames currently held in the three slots.
    closed spec fn available(&self) -> Set<int> {
        slot_set(self.slot0).union(slot_set(self.slot1)).union(slot_set(self.slot2))
    }

    /// Distinct, in-range frames.
    closed spec fn inv(&self) -> bool {
        &&& (self.slot0 is Some && self.slot1 is Some ==> self.slot0->Some_0.number
            != self.slot1->Some_0.number)
        &&& (self.slot0 is Some && self.slot2 is Some ==> self.slot0->Some_0.number
            != self.slot2->Some_0.number)
        &&& (self.slot1 is Some && self.slot2 is Some ==> self.slot1->Some_0.number
            != self.slot2->Some_0.number)
        &&& (self.slot0 is Some ==> self.slot0->Some_0.number < FRAME_LIMIT)
        &&& (self.slot1 is Some ==> self.slot1->Some_0.number < FRAME_LIMIT)
        &&& (self.slot2 is Some ==> self.slot2->Some_0.number < FRAME_LIMIT)
    }

    /// A frame can come back only when a slot is free and the frame is not
    /// already pooled.
    closed spec fn can_deallocate(&self, frame: Frame) -> bool {
        &&& (self.slot0 is None || self.slot1 is None || self.slot2 is None)
        &&& !self.available().contains(frame.number as int)
        &&& frame.number < FRAME_LIMIT
    }

    proof fn available_finite(&self) {
    }

    /// Hand out the first pooled frame.
    fn allocate_frame(&mut self) -> (r: Option<Frame>) {
        if self.slot0.is_some() {
            let f = self.slot0.take();
            proof {
                assert(self.available() =~= old(self).available().remove(
                    f->Some_0.number as int,
                ));
            }
            f
        } else if self.slot1.is_some() {
            let f = self.slot1.take();
            proof {
                assert(self.available() =~= old(self).available().remove(
                    f->Some_0.number as int,
                ));
            }
            f
        } else if self.slot2.is_some() {
            let f = self.slot2.take();
            proof {
                assert(self.available() =~= old(self).available().remove(
                    f->Some_0.number as int,
                ));
            }
            f
        } else {
            proof {
                assert(old(self).available().is_empty());
            }
            None
        }
    }

    /// Pool the frame again in the first free slot.
    fn deallocate_frame(&mut self, frame: Frame) {
        if self.slot0.is_none() {
            self.slot0 = Some(frame);
            proof {
                assert(self.available() =~= old(self).available().insert(
                    frame.number as int,
                ));
            }
        } else if self.slot1.is_none() {
            self.slot1 = Some(frame);
            proof {
                assert(self.available() =~= old(self).available().insert(
                    frame.number as int,
                ));
            }
        } else {
            self.slot2 = Some(frame);
            proof {
                assert(self.available() =~= old(self).available().insert(
                    frame.number as int,
                ));
            }
        }
    }
}

/// The reserved virtual page, together with its private allocator.
pub struct TemporaryPage {
    pub page: Page,
    pub allocator: TinyAllocator,
}

impl TemporaryPage {
    /// Frames the private allocator still holds.
    pub open spec fn frames_held(self) -> Set<int> {
        self.allocator.available()
    }

    /// The reserved page is canonical, outside the self-map slot, and the
    /// private allocator is intact.
    pub open spec fn wf(self) -> bool {
        &&& self.allocator.inv()
        &&& page_valid(self.page.number as int)
        &&& p4_index_spec(self.page.number as int) != 511
    }

    /// Reserve `page` and pre-draw up to three frames for its table chain.
    pub fn new<A: FrameAllocator>(page: Page, allocator: &mut A) -> (r: TemporaryPage)
        requires
            page_valid(page.number as int),
            p4_index_spec(page.number as int) != 511,
            old(allocator).inv(),
            forall|m: int| old(allocator).available().contains(m) ==> 0 <= m < FRAME_LIMIT,
        ensures
            r.wf(),
            r.page == page,
            final(allocator).inv(),
            final(allocator).available().subset_of(old(allocator).available()),
            r.frames_held().disjoint(final(allocator).available()),
            r.frames_held() =~= old(allocator).available().difference(
                final(allocator).available(),
            ),
            forall|m: int| r.frames_held().contains(m) ==> 0 <= m < FRAME_LIMIT,
            forall|m: int| final(allocator).available().contains(m) ==> 0 <= m < FRAME_LIMIT,
            old(allocator).available().len() >= 3 ==> r.frames_held().len() == 3
                && final(allocator).available().len() == old(allocator).available().len() - 3,
    {
        TemporaryPage { page, allocator: TinyAllocator::new(allocator) }
    }

    /// Map the reserved page to `frame` in the active hierarchy, drawing any
    /// intermediate tables from the private allocator, and return the
    /// virtual address the frame's contents are now reachable at.
    pub fn map(&mut self, frame: Frame, active_table: &mut ActivePageTable) -> (r: u64)
        requires
            old(self).wf(),
            old(active_table).mapper.inv(),
            old(active_table).mapper.mappable(old(self).page.number as int),
            frame.number < FRAME_LIMIT,
            old(self).frames_held().disjoint(old(active_table).mapper.frames()),
            old(self).frames_held().len() >= old(active_table).mapper.tables_needed(
                old(self).page.number as int,
            ),
        ensures
            final(self).wf(),
            final(self).page == old(self).page,
            final(self).frames_held().subset_of(old(self).frames_held()),
            final(active_table).mapper.inv(),
            final(active_table).mapper.p4_frame == old(active_table).mapper.p4_frame,
            final(self).frames_held().disjoint(final(active_table).mapper.frames()),
            r == old(self).page.number * crate::memory::PAGE_SIZE,
            final(active_table).mapper.translate_page_spec(old(self).page.number as int) == Some(
                frame.number as int,
            ),
            final(active_table).mapper.has_l1_path_from(
                final(active_table).mapper.root(),
                old(self).page.number as int,
            ),
            final(active_table).mapper.table_at(
                final(active_table).mapper.l1_frame_from(
                    final(active_table).mapper.root(),
                    old(self).page.number as int,
                ),
            )[crate::paging::p1_index_spec(old(self).page.number as int)] == crate::entry::pack_entry(
                frame.number,
                WRITABLE,
            ),
            old(active_table).mapper.self_mapped() ==> final(active_table).mapper.self_mapped(),
            forall|f: int|
                old(active_table).mapper.stored(f) ==> final(active_table).mapper.stored(f)
                    && final(active_table).mapper.level_at(f) == old(
                    active_table,
                ).mapper.level_at(f),
            forall|f: int|
                final(active_table).mapper.stored(f) ==> old(active_table).mapper.stored(f) || old(
                    self,
                ).frames_held().contains(f),
            forall|f: int|
                old(active_table).mapper.stored(f) && old(active_table).mapper.level_at(f) == 4
                    && f != old(active_table).mapper.root() ==> final(active_table).mapper.table_at(f) == old(active_table).mapper.table_at(f),
            forall|rr: int, n: int|
                old(active_table).mapper.stored(rr) && old(active_table).mapper.level_at(rr) == 4
                    && page_valid(n) && p4_index_spec(n) != 511 && n != old(
                    self,
                ).page.number as int ==> #[trigger] final(active_table).mapper.resolve_from(rr, n)
                    == old(active_table).mapper.resolve_from(rr, n) && final(active_table).mapper.mappable_from(rr, n) == old(active_table).mapper.mappable_from(rr, n),
            forall|rr: int, n: int|
                old(active_table).mapper.stored(rr) && old(active_table).mapper.level_at(rr) == 4
                    && rr != old(active_table).mapper.root() && 0 <= n && p4_index_spec(n) != 511
                    ==> #[trigger] final(active_table).mapper.has_l1_path_from(rr, n) == old(
                    active_table,
                ).mapper.has_l1_path_from(rr, n),
            forall|rr: int, n: int|
                old(active_table).mapper.stored(rr) && old(active_table).mapper.level_at(rr) == 4
                    && rr != old(active_table).mapper.root() && 0 <= n && p4_index_spec(n) != 511
                    && old(active_table).mapper.has_l1_path_from(rr, n) ==> #[trigger] final(active_table).mapper.l1_frame_from(rr, n) == old(active_table).mapper.l1_frame_from(rr, n),
            forall|rr: int, n: int|
                old(active_table).mapper.stored(rr) && old(active_table).mapper.level_at(rr) == 4
                    && rr != old(active_table).mapper.root() && 0 <= n && p4_index_spec(n) != 511
                    ==> #[trigger] final(active_table).mapper.resolve_from(rr, n) == old(
                    active_table,
                ).mapper.resolve_from(rr, n) && final(active_table).mapper.mappable_from(rr, n)
                    == old(active_table).mapper.mappable_from(rr, n),
    {
        let page = Page { number: self.page.number };
        proof {
            assert(WRITABLE & crate::entry::FLAGS_MASK == WRITABLE) by (bit_vector);
        }
        active_table.mapper.map_to(
            page,
            frame,
            EntryFlags::from_bits_truncate(WRITABLE),
            &mut self.allocator,
        );
        self.page.start_address()
    }

    /// Remove the reserved page's mapping from the active hierarchy, tear
    /// down the page's now-unused intermediate tables and return their
    /// frames to the private pool for reuse.  The mapped frame itself is
    /// deliberately not reclaimed.
    #[verifier::rlimit(100)]
    #[verifier::spinoff_prover]
    pub fn unmap(&mut self, active_table: &mut ActivePageTable)
        requires
            old(self).wf(),
            old(active_table).mapper.inv(),
            old(self).frames_held().disjoint(old(active_table).mapper.frames()),
            old(active_table).mapper.has_l1_path_from(
                old(active_table).mapper.root(),
                old(self).page.number as int,
            ),
            old(active_table).mapper.translate_page_spec(old(self).page.number as int) is Some,
        ensures
            final(self).wf(),
            final(self).page == old(self).page,
            old(self).frames_held().subset_of(final(self).frames_held()),
            forall|m: int|
                final(self).frames_held().contains(m) ==> old(self).frames_held().contains(m)
                    || old(active_table).mapper.stored(m),
            final(self).frames_held().disjoint(final(active_table).mapper.frames()),
            final(self).frames_held().len() >= final(active_table).mapper.tables_needed(
                old(self).page.number as int,
            ),
            final(active_table).mapper.inv(),
            final(active_table).mapper.p4_frame == old(active_table).mapper.p4_frame,
            forall|f: int|
                final(active_table).mapper.stored(f) ==> old(active_table).mapper.stored(f)
                    && final(active_table).mapper.level_at(f) == old(active_table).mapper.level_at(
                    f,
                ),
            forall|f: int|
                old(active_table).mapper.stored(f) && old(active_table).mapper.level_at(f) == 4
                    ==> final(active_table).mapper.stored(f),
            final(active_table).mapper.translate_page_spec(old(self).page.number as int)
                == None::<int>,
            final(active_table).mapper.mappable(old(self).page.number as int),
            forall|f: int|
                old(active_table).mapper.stored(f) && old(active_table).mapper.level_at(f) == 4
                    && f != old(active_table).mapper.root() ==> final(active_table).mapper.table_at(f) == old(active_table).mapper.table_at(f),
            forall|f: int|
                old(active_table).mapper.stored(f) && old(active_table).mapper.level_at(f) == 1
                    && f != old(active_table).mapper.l1_frame_from(
                    old(active_table).mapper.root(),
                    old(self).page.number as int,
                ) ==> #[trigger] final(active_table).mapper.stored(f),
            forall|f: int|
                old(active_table).mapper.stored(f) && old(active_table).mapper.level_at(f) == 1
                    && final(active_table).mapper.stored(f) && f != old(
                    active_table,
                ).mapper.l1_frame_from(
                    old(active_table).mapper.root(),
                    old(self).page.number as int,
                ) ==> final(active_table).mapper.table_at(f) == old(active_table).mapper.table_at(
                    f,
                ),
            old(active_table).mapper.self_mapped() ==> final(active_table).mapper.self_mapped(),
            forall|rr: int, n: int|
                old(active_table).mapper.stored(rr) && old(active_table).mapper.level_at(rr) == 4
                    && page_valid(n) && p4_index_spec(n) != 511 && n != old(
                    self,
                ).page.number as int ==> #[trigger] final(active_table).mapper.resolve_from(rr, n)
                    == old(active_table).mapper.resolve_from(rr, n) && final(active_table).mapper.mappable_from(rr, n) == old(active_table).mapper.mappable_from(rr, n),
            forall|rr: int, n: int|
                old(active_table).mapper.stored(rr) && old(active_table).mapper.level_at(rr) == 4
                    && rr != old(active_table).mapper.root() && page_valid(n) && p4_index_spec(n)
                    != 511 ==> #[trigger] final(active_table).mapper.resolve_from(rr, n) == old(
                    active_table,
                ).mapper.resolve_from(rr, n) && final(active_table).mapper.mappable_from(rr, n)
                    == old(active_table).mapper.mappable_from(rr, n),
            forall|rr: int, n: int|
                old(active_table).mapper.stored(rr) && old(active_table).mapper.level_at(rr) == 4
                    && rr != old(active_table).mapper.root() && 0 <= n && p4_index_spec(n) != 511
                    ==> #[trigger] final(active_table).mapper.has_l1_path_from(rr, n) == old(
                    active_table,
                ).mapper.has_l1_path_from(rr, n),
            forall|rr: int, n: int|
                old(active_table).mapper.stored(rr) && old(active_table).mapper.level_at(rr) == 4
                    && rr != old(active_table).mapper.root() && 0 <= n && p4_index_spec(n) != 511
                    && old(active_table).mapper.has_l1_path_from(rr, n)
                    ==> #[trigger] final(active_table).mapper.l1_frame_from(rr, n) == old(
                    active_table,
                ).mapper.l1_frame_from(rr, n),
    {
        let ghost s0 = old(active_table).mapper;
        let ghost pn = old(self).page.number as int;
        let ghost rt = s0.root();
        let page = Page { number: self.page.number };
        active_table.mapper.unmap(page, &mut self.allocator);
        let ghost s1 = active_table.mapper;
        proof {
            self.allocator.lemma_pool_len();
        }
        let room = self.allocator.room();
        let freed = active_table.mapper.prune_path(page, room);
        let ghost s2 = active_table.mapper;
        let ghost pool0 = self.allocator.available();
        if let Some(f) = freed.0 {
            proof {
                assert(!self.allocator.available().contains(f.number as int)) by {
                    assert(s1.frames().contains(f.number as int));
                    assert(s0.frames().contains(f.number as int) == s0.stored(f.number as int));
                    assert(s1.frames().contains(f.number as int) == s1.stored(f.number as int));
                };
            }
            let ok = self.allocator.put_back(f);
            proof {
                assert(ok);
            }
        }
        if let Some(f) = freed.1 {
            proof {
                assert(!self.allocator.available().contains(f.number as int)) by {
                    assert(s1.stored(f.number as int));
                    assert(s0.frames().contains(f.number as int) == s0.stored(f.number as int));
                    assert(s1.frames().contains(f.number as int) == s1.stored(f.number as int));
                };
            }
            let ok = self.allocator.put_back(f);
            proof {
                assert(ok);
            }
        }
        if let Some(f) = freed.2 {
            proof {
                assert(!self.allocator.available().contains(f.number as int)) by {
                    assert(s1.stored(f.number as int));
                    assert(s0.frames().contains(f.number as int) == s0.stored(f.number as int));
                    assert(s1.frames().contains(f.number as int) == s1.stored(f.number as int));
                };
            }
            let ok = self.allocator.put_back(f);
            proof {
                assert(ok);
            }
        }
        proof {
            let post = active_table.mapper;
            let l1 = s0.l1_frame_from(rt, pn);
            // The pool took every freed frame, so it can cover exactly the
            // tables a fresh mapping of the page would have to re-create.
            let count: int = (if freed.0 is Some {
                1int
            } else {
                0int
            }) + (if freed.1 is Some {
                1int
            } else {
                0int
            }) + (if freed.2 is Some {
                1int
            } else {
                0int
            });
            assert(self.allocator.available().len() == pool0.len() + count);
            assert(post.tables_needed(pn) == count);
            assert(self.allocator.available().len() >= post.tables_needed(pn));
            // Disjointness survives: the pool gained only frames the store
            // gave up.
            assert forall|m: int|
                self.allocator.available().contains(m) implies !post.frames().contains(m) by {
                assert(post.frames().contains(m) == post.stored(m));
                assert(s2.frames().contains(m) == s2.stored(m));
                assert(s1.frames().contains(m) == s1.stored(m));
                assert(s0.frames().contains(m) == s0.stored(m));
                if pool0.contains(m) {
                    if old(self).frames_held().contains(m) {
                        assert(!s0.stored(m));
                    }
                }
            };
            // Level-4 tables other than the root, and surviving level-1
            // tables other than the page's own, are untouched.
            assert forall|f: int|
                s0.stored(f) && s0.level_at(f) == 4 && f != rt implies post.table_at(f)
                == s0.table_at(f) by {
                assert(f != l1);
                assert(Mapper::unchanged_frame(s0, s1, f));
                assert(s1.stored(f) && s1.level_at(f) == 4);
            };
            assert forall|f: int|
                s0.stored(f) && s0.level_at(f) == 1 && post.stored(f) && f != l1 implies post.table_at(
                f,
            ) == s0.table_at(f) by {
                assert(Mapper::unchanged_frame(s0, s1, f));
                assert(s1.stored(f) && s1.level_at(f) == 1);
            };
            assert forall|f: int|
                s0.stored(f) && s0.level_at(f) == 1 && f != l1 implies #[trigger] post.stored(
                f,
            ) by {
                assert(s1.frames().contains(f) == s0.frames().contains(f));
                assert(s0.frames().contains(f) == s0.stored(f));
                assert(s1.frames().contains(f) == s1.stored(f));
                assert(s1.level_at(f) == s0.level_at(f));
                assert(s1.l1_frame_from(s1.root(), pn) == s0.l1_frame_from(rt, pn));
                assert(s2.stored(f));
            };
            if s0.self_mapped() {
                assert(post.self_mapped()) by {
                    assert(s1.table_at(s1.root())[511] == s0.table_at(rt)[511]);
                    assert(post.table_at(post.root())[511] == s1.table_at(s1.root())[511]);
                };
            }
        }
    }
}

} // verus!