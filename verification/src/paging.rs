//! Virtual pages and the paging state machine: the active hierarchy, the
//! inactive hierarchy being built, and the kernel remap procedure.

use vstd::prelude::*;
use vstd::arithmetic::div_mod::lemma_breakdown;
use vstd::arithmetic::div_mod::lemma_div_is_ordered;
use vstd::arithmetic::div_mod::lemma_small_mod;
use crate::entry::{pack_entry, EntryFlags, NO_EXECUTE, PRESENT, WRITABLE};
use crate::mapper::Mapper;
use crate::memory::{Frame, FrameAllocator, FRAME_LIMIT, PAGE_SIZE, VirtualAddress};
use crate::temp_page::TemporaryPage;

verus! {

/// Exclusive upper bound of the low canonical half, in page numbers:
/// addresses below `0x8000_0000_0000`.
pub const LOW_HALF_END: u64 = 0x8_0000_0000;

/// Inclusive lower bound of the high canonical half, in page numbers:
/// addresses from `0xFFFF_8000_0000_0000` up.
pub const HIGH_HALF_START: u64 = 0xF_FFF8_0000_0000;

/// Exclusive upper bound on page numbers: one past the last page of the
/// 64-bit address space.
pub const PAGE_LIMIT: u64 = 0x10_0000_0000_0000;

/// A virtual-address-space unit, identified by its ordinal page number.
#[derive(Debug, Clone, Copy, PartialEq, Eq, Structural)]
pub struct Page {
    pub number: u64,
}

/// The page number lies in one of the two canonical halves of the address
/// space.
pub open spec fn page_valid(n: int) -> bool {
    0 <= n < LOW_HALF_END || HIGH_HALF_START <= n < PAGE_LIMIT
}

/// Level-4 index: bits 27..36 of the page number.
pub open spec fn p4_index_spec(n: int) -> int {
    (n / 0x800_0000) % 512
}

/// Level-3 index: bits 18..27 of the page number.
pub open spec fn p3_index_spec(n: int) -> int {
    (n / 0x4_0000) % 512
}

/// Level-2 index: bits 9..18 of the page number.
pub open spec fn p2_index_spec(n: int) -> int {
    (n / 0x200) % 512
}

/// Level-1 index: bits 0..9 of the page number.
pub open spec fn p1_index_spec(n: int) -> int {
    n % 512
}

impl Page {
    /// The page containing the given virtual address, which must be
    /// canonical.
    pub fn containing_address(address: VirtualAddress) -> (r: Page)
        requires
            address < 0x8000_0000_0000 || address >= 0xFFFF_8000_0000_0000,
        ensures
            r.number == address / PAGE_SIZE,
            page_valid(r.number as int),
    {
        Page { number: address / PAGE_SIZE }
    }

    /// The virtual address at which this page starts.
    pub fn start_address(&self) -> (r: VirtualAddress)
        requires
            self.number < PAGE_LIMIT,
        ensures
            r == self.number * PAGE_SIZE,
    {
        self.number * PAGE_SIZE
    }

    /// Index of this page's slot in a level-4 table.
    pub fn p4_index(&self) -> (r: usize)
        ensures
            r == p4_index_spec(self.number as int),
            r < 512,
    {
        ((self.number / 0x800_0000) % 512) as usize
    }

    /// Index of this page's slot in a level-3 table.
    pub fn p3_index(&self) -> (r: usize)
        ensures
            r == p3_index_spec(self.number as int),
            r < 512,
    {
        ((self.number / 0x4_0000) % 512) as usize
    }

    /// Index of this page's slot in a level-2 table.
    pub fn p2_index(&self) -> (r: usize)
        ensures
            r == p2_index_spec(self.number as int),
            r < 512,
    {
        ((self.number / 0x200) % 512) as usize
    }

    /// Index of this page's slot in a level-1 table.
    pub fn p1_index(&self) -> (r: usize)
        ensures
            r == p1_index_spec(self.number as int),
            r < 512,
    {
        (self.number % 512) as usize
    }
}

/// A built-but-not-loaded hierarchy, referenced only by the physical frame
/// holding its root table.
pub struct InactivePageTable {
    pub p4_frame: Frame,
}

impl InactivePageTable {
    /// Build a fresh inactive hierarchy in `frame`: the frame is reached
    /// through the temporary page, zeroed, and its last slot is pointed
    /// back at the frame itself, re-establishing the recursive-mapping
    /// invariant for the new hierarchy; the temporary page is then
    /// unmapped again.  The active hierarchy's translations are unchanged.
    pub fn new(
        frame: Frame,
        active_table: &mut ActivePageTable,
        temp_page: &mut TemporaryPage,
    ) -> (r: InactivePageTable)
        requires
            old(active_table).mapper.inv(),
            old(active_table).mapper.self_mapped(),
            !old(active_table).mapper.stored(frame.number as int),
            frame.number < FRAME_LIMIT,
            !old(temp_page).frames_held().contains(frame.number as int),
            old(temp_page).wf(),
            old(active_table).mapper.mappable(old(temp_page).page.number as int),
            old(temp_page).frames_held().disjoint(old(active_table).mapper.frames()),
            old(temp_page).frames_held().len() >= old(active_table).mapper.tables_needed(
                old(temp_page).page.number as int,
            ),
        ensures
            r.p4_frame == frame,
            final(active_table).mapper.inv(),
            final(active_table).mapper.self_mapped(),
            final(active_table).mapper.root() == old(active_table).mapper.root(),
            final(temp_page).wf(),
            final(temp_page).page == old(temp_page).page,
            final(temp_page).frames_held().disjoint(final(active_table).mapper.frames()),
            final(temp_page).frames_held().len() >= final(active_table).mapper.tables_needed(
                old(temp_page).page.number as int,
            ),
            forall|m: int|
                final(temp_page).frames_held().contains(m) ==> old(temp_page).frames_held().contains(m)
                    || old(active_table).mapper.stored(m) || m == frame.number as int,
            final(active_table).mapper.stored(frame.number as int),
            final(active_table).mapper.level_at(frame.number as int) == 4,
            final(active_table).mapper.child_at(frame.number as int, 511) == Some(
                frame.number as int,
            ),
            final(active_table).mapper.table_at(frame.number as int)[511] == pack_entry(
                frame.number,
                PRESENT | WRITABLE,
            ),
            forall|j: int|
                0 <= j < 511 ==> final(active_table).mapper.table_at(frame.number as int)[j] == 0,
            forall|f: int|
                final(active_table).mapper.stored(f) && old(active_table).mapper.stored(f)
                    ==> final(active_table).mapper.level_at(f) == old(active_table).mapper.level_at(
                    f,
                ),
            forall|f: int|
                old(active_table).mapper.stored(f) && old(active_table).mapper.level_at(f) == 4
                    ==> final(active_table).mapper.stored(f),
            forall|f: int|
                final(active_table).mapper.stored(f) ==> old(active_table).mapper.stored(f) || f
                    == frame.number as int || old(temp_page).frames_held().contains(f),
            final(active_table).mapper.translate_page_spec(old(temp_page).page.number as int)
                == None::<int>,
            final(active_table).mapper.mappable(old(temp_page).page.number as int),
            forall|n: int|
                page_valid(n) && p4_index_spec(n) != 511 && n != old(temp_page).page.number as int
                    ==> #[trigger] final(active_table).mapper.translate_page_spec(n) == old(
                    active_table,
                ).mapper.translate_page_spec(n) && final(active_table).mapper.mappable(n) == old(
                    active_table,
                ).mapper.mappable(n),
            forall|n: int|
                0 <= n && p4_index_spec(n) != 511 ==> #[trigger] final(active_table).mapper.resolve_from(frame.number as int, n) == None::<int>,
            forall|n: int|
                0 <= n && p4_index_spec(n) != 511 ==> #[trigger] final(active_table).mapper.mappable_from(frame.number as int, n),
    {
        let ghost s0 = old(active_table).mapper;
        let target = frame.clone();
        temp_page.map(frame.clone(), active_table);
        let ghost s1 = active_table.mapper;
        active_table.mapper.install_root_table(target);
        let ghost s2 = active_table.mapper;
        proof {
            crate::entry::lemma_zero_entry();
            crate::entry::lemma_present_writable_flags();
            crate::entry::lemma_entry_round_trip(frame.number, PRESENT | WRITABLE);
            assert forall|n: int| 0 <= n && p4_index_spec(n) != 511 implies {
                &&& #[trigger] active_table.mapper.resolve_from(frame.number as int, n)
                    == None::<int>
                &&& active_table.mapper.mappable_from(frame.number as int, n)
            } by {
                assert(active_table.mapper.table_at(frame.number as int)[p4_index_spec(n)] == 0);
            };
        }
        temp_page.unmap(active_table);
        proof {
            let s3 = active_table.mapper;
            let fi = frame.number as int;
            assert forall|f: int| s3.stored(f) && s0.stored(f) implies s3.level_at(f)
                == s0.level_at(f) by {
                assert(s1.stored(f) && s1.level_at(f) == s0.level_at(f));
                if f != fi {
                    assert(Mapper::unchanged_frame(s1, s2, f));
                }
            };
            assert forall|f: int|
                s0.stored(f) && s0.level_at(f) == 4 implies s3.stored(f) by {
                assert(s1.stored(f) && s1.level_at(f) == s0.level_at(f));
                if f != fi {
                    assert(Mapper::unchanged_frame(s1, s2, f));
                }
                assert(s2.stored(f) && s2.level_at(f) == 4);
            };
            assert forall|f: int| s3.stored(f) implies s0.stored(f) || f == fi || old(
                temp_page,
            ).frames_held().contains(f) by {
                assert(s2.stored(f) && s3.level_at(f) == s2.level_at(f));
                if f != fi {
                    assert(Mapper::unchanged_frame(s1, s2, f));
                }
            };
            assert forall|m: int|
                final(temp_page).frames_held().contains(m) implies old(
                temp_page,
            ).frames_held().contains(m) || s0.stored(m) || m == fi by {
                if !old(temp_page).frames_held().contains(m) {
                    assert(s2.stored(m));
                    if m != fi {
                        assert(Mapper::unchanged_frame(s1, s2, m));
                        assert(s1.stored(m));
                    }
                }
            };
            let rt = s0.root();
            assert forall|n: int|
                page_valid(n) && p4_index_spec(n) != 511 && n != old(
                    temp_page,
                ).page.number as int implies #[trigger] s3.translate_page_spec(n)
                == s0.translate_page_spec(n) && s3.mappable(n) == s0.mappable(n) by {
                assert(s1.resolve_from(rt, n) == s0.resolve_from(rt, n) && s1.mappable_from(rt, n)
                    == s0.mappable_from(rt, n));
                assert(s2.translate_page_spec(n) == s1.translate_page_spec(n));
                assert(s2.mappable(n) == s1.mappable(n));
                assert(s3.resolve_from(rt, n) == s2.resolve_from(rt, n) && s3.mappable_from(rt, n)
                    == s2.mappable_from(rt, n));
            };
        }
        InactivePageTable { p4_frame: frame }
    }
}

/// Wraps the hierarchy that table walks currently resolve through.  Exactly
/// one exists per running kernel instance; its only lifecycle event is
/// being swapped for another root by `switch`.
pub struct ActivePageTable {
    pub mapper: Mapper,
}

impl ActivePageTable {
    /// Wrap a fresh machine state whose single hierarchy is rooted in
    /// `p4_frame` (see `Mapper::new`).
    pub fn new(p4_frame: Frame) -> (r: ActivePageTable)
        requires
            p4_frame.number < FRAME_LIMIT,
        ensures
            r.mapper.inv(),
            r.mapper.self_mapped(),
            r.mapper.root() == p4_frame.number,
            r.mapper.frames() =~= Set::<int>::empty().insert(p4_frame.number as int),
            forall|n: int|
                page_valid(n) && p4_index_spec(n) != 511 ==> r.mapper.translate_page_spec(n)
                    == None::<int>,
            forall|n: int| page_valid(n) && p4_index_spec(n) != 511 ==> r.mapper.mappable(n),
    {
        ActivePageTable { mapper: Mapper::new(p4_frame) }
    }

    /// Begin editing the given inactive hierarchy: back the active root up
    /// through the temporary page, overwrite the active recursive-mapping
    /// slot with the inactive root, and walk through it from now on.  The
    /// returned backup frame restores the state in `end_edit`.
    pub fn begin_edit(
        &mut self,
        table: &InactivePageTable,
        temp_page: &mut TemporaryPage,
    ) -> (backup: Frame)
        requires
            old(self).mapper.inv(),
            old(self).mapper.self_mapped(),
            old(self).mapper.stored(table.p4_frame.number as int),
            old(self).mapper.level_at(table.p4_frame.number as int) == 4,
            old(self).mapper.child_at(table.p4_frame.number as int, 511) == Some(
                table.p4_frame.number as int,
            ),
            table.p4_frame.number as int != old(self).mapper.root(),
            old(temp_page).wf(),
            old(self).mapper.mappable(old(temp_page).page.number as int),
            old(temp_page).frames_held().disjoint(old(self).mapper.frames()),
            old(temp_page).frames_held().len() >= old(self).mapper.tables_needed(
                old(temp_page).page.number as int,
            ),
        ensures
            final(self).mapper.inv(),
            final(self).mapper.self_mapped(),
            backup.number as int == old(self).mapper.root(),
            final(self).mapper.root() == table.p4_frame.number,
            final(temp_page).wf(),
            final(temp_page).page == old(temp_page).page,
            final(temp_page).frames_held().subset_of(old(temp_page).frames_held()),
            final(temp_page).frames_held().disjoint(final(self).mapper.frames()),
            final(self).mapper.stored(backup.number as int),
            final(self).mapper.level_at(backup.number as int) == 4,
            final(self).mapper.child_at(backup.number as int, 511) == Some(
                table.p4_frame.number as int,
            ),
            forall|f: int|
                old(self).mapper.stored(f) ==> final(self).mapper.stored(f) && final(self).mapper.level_at(f) == old(self).mapper.level_at(f),
            forall|f: int|
                final(self).mapper.stored(f) ==> old(self).mapper.stored(f) || old(
                    temp_page,
                ).frames_held().contains(f),
            // The hierarchy now being edited translates as before.
            forall|n: int|
                page_valid(n) && p4_index_spec(n) != 511 ==> #[trigger] final(self).mapper.translate_page_spec(n) == old(self).mapper.resolve_from(
                    table.p4_frame.number as int,
                    n,
                ) && final(self).mapper.mappable(n) == old(self).mapper.mappable_from(
                    table.p4_frame.number as int,
                    n,
                ),
            // Away from the temporary page, the backed-up hierarchy still
            // translates exactly as it did before the call.
            forall|n: int|
                page_valid(n) && p4_index_spec(n) != 511 && n != old(temp_page).page.number as int
                    ==> #[trigger] final(self).mapper.resolve_from(backup.number as int, n) == old(
                    self,
                ).mapper.translate_page_spec(n),
            // The backed-up hierarchy still reaches the temporary page.
            final(self).mapper.has_l1_path_from(
                backup.number as int,
                old(temp_page).page.number as int,
            ),
            final(self).mapper.resolve_from(
                backup.number as int,
                old(temp_page).page.number as int,
            ) is Some,
    {
        let backup = Frame { number: self.mapper.p4_frame };
        temp_page.map(backup.clone(), self);
        proof {
            assert(self.mapper.self_mapped());
            assert(self.mapper.stored(table.p4_frame.number as int) && self.mapper.level_at(
                table.p4_frame.number as int,
            ) == 4);
            assert(self.mapper.child_at(table.p4_frame.number as int, 511) == Some(
                table.p4_frame.number as int,
            )) by {
                assert(self.mapper.table_at(table.p4_frame.number as int) == old(
                    self,
                ).mapper.table_at(table.p4_frame.number as int));
            };
        }
        let ghost s1 = self.mapper;
        let prev = self.mapper.enter_hierarchy(Frame { number: table.p4_frame.number });
        proof {
            let s2 = self.mapper;
            assert(prev.number == backup.number);
            assert(self.mapper.has_l1_path_from(
                prev.number as int,
                old(temp_page).page.number as int,
            ));
            assert(self.mapper.resolve_from(
                prev.number as int,
                old(temp_page).page.number as int,
            ) is Some);
            assert forall|n: int|
                page_valid(n) && p4_index_spec(n) != 511 && n != old(
                    temp_page,
                ).page.number as int implies #[trigger] self.mapper.resolve_from(
                prev.number as int,
                n,
            ) == old(self).mapper.translate_page_spec(n) by {
                assert(s1.resolve_from(prev.number as int, n) == old(self).mapper.resolve_from(
                    prev.number as int,
                    n,
                ));
                assert(s2.resolve_from(prev.number as int, n) == s1.resolve_from(
                    prev.number as int,
                    n,
                ));
            };
            assert forall|f: int| old(self).mapper.stored(f) implies s2.stored(f) && s2.level_at(f)
                == old(self).mapper.level_at(f) by {
                assert(s1.stored(f) && s1.level_at(f) == old(self).mapper.level_at(f));
                assert(s2.frames().contains(f) == s1.frames().contains(f));
                assert(s1.frames().contains(f) == s1.stored(f));
                assert(s2.frames().contains(f) == s2.stored(f));
            };
            assert forall|f: int| s2.stored(f) implies old(self).mapper.stored(f) || old(
                temp_page,
            ).frames_held().contains(f) by {
                assert(s2.frames().contains(f) == s1.frames().contains(f));
                assert(s1.frames().contains(f) == s1.stored(f));
                assert(s2.frames().contains(f) == s2.stored(f));
            };
            assert(final(temp_page).frames_held().disjoint(s2.frames())) by {
                assert forall|m: int|
                    final(temp_page).frames_held().contains(m) implies !s2.frames().contains(
                    m,
                ) by {
                    assert(!s1.frames().contains(m));
                    assert(s2.frames().contains(m) == s1.frames().contains(m));
                };
            };
        }
        backup
    }

    /// End the edit: restore the backed-up root's recursive mapping, walk
    /// from it again, and unmap the temporary page.  The edited hierarchy
    /// keeps every translation it gained.
    #[verifier::rlimit(100)]
    #[verifier::spinoff_prover]
    pub fn end_edit(&mut self, backup: Frame, temp_page: &mut TemporaryPage)
        requires
            old(self).mapper.inv(),
            old(self).mapper.self_mapped(),
            old(self).mapper.stored(backup.number as int),
            old(self).mapper.level_at(backup.number as int) == 4,
            backup.number as int != old(self).mapper.root(),
            old(temp_page).wf(),
            old(temp_page).frames_held().disjoint(old(self).mapper.frames()),
            old(self).mapper.has_l1_path_from(
                backup.number as int,
                old(temp_page).page.number as int,
            ),
            old(self).mapper.resolve_from(
                backup.number as int,
                old(temp_page).page.number as int,
            ) is Some,
        ensures
            final(self).mapper.inv(),
            final(self).mapper.self_mapped(),
            final(self).mapper.root() == backup.number,
            final(temp_page).wf(),
            final(temp_page).page == old(temp_page).page,
            old(temp_page).frames_held().subset_of(final(temp_page).frames_held()),
            final(temp_page).frames_held().disjoint(final(self).mapper.frames()),
            final(self).mapper.translate_page_spec(old(temp_page).page.number as int)
                == None::<int>,
            forall|f: int|
                final(self).mapper.stored(f) && old(self).mapper.stored(f) ==> final(self).mapper.level_at(f) == old(self).mapper.level_at(f),
            forall|f: int|
                old(self).mapper.stored(f) && old(self).mapper.level_at(f) == 4 ==> final(self).mapper.stored(f),
            // The hierarchy that was being edited keeps its translations.
            forall|n: int|
                page_valid(n) && p4_index_spec(n) != 511 && n != old(temp_page).page.number as int
                    ==> #[trigger] final(self).mapper.resolve_from(old(self).mapper.root(), n)
                    == old(self).mapper.translate_page_spec(n),
            // Away from the temporary page, the re-activated hierarchy
            // translates exactly as it did when the edit began.
            forall|n: int|
                page_valid(n) && p4_index_spec(n) != 511 && n != old(temp_page).page.number as int
                    ==> #[trigger] final(self).mapper.translate_page_spec(n) == old(
                    self,
                ).mapper.resolve_from(backup.number as int, n),
            forall|n: int|
                0 <= n && p4_index_spec(n) != 511 ==> #[trigger] final(self).mapper.has_l1_path_from(old(self).mapper.root(), n) == old(
                    self,
                ).mapper.has_l1_path_from(old(self).mapper.root(), n),
            forall|n: int|
                0 <= n && p4_index_spec(n) != 511 && old(self).mapper.has_l1_path_from(
                    old(self).mapper.root(),
                    n,
                ) ==> #[trigger] final(self).mapper.l1_frame_from(old(self).mapper.root(), n)
                    == old(self).mapper.l1_frame_from(old(self).mapper.root(), n),
            forall|n: int|
                #![trigger final(self).mapper.table_at(final(self).mapper.l1_frame_from(old(self).mapper.root(), n))]
                #![trigger old(self).mapper.table_at(old(self).mapper.l1_frame_from(old(self).mapper.root(), n))]
                page_valid(n) && p4_index_spec(n) != 511 && n != old(temp_page).page.number as int
                    && old(self).mapper.has_l1_path_from(old(self).mapper.root(), n) ==> final(self).mapper.table_at(
                    final(self).mapper.l1_frame_from(old(self).mapper.root(), n),
                )[p1_index_spec(n)] == old(self).mapper.table_at(
                    old(self).mapper.l1_frame_from(old(self).mapper.root(), n),
                )[p1_index_spec(n)],
            forall|f: int|
                old(self).mapper.stored(f) && old(self).mapper.level_at(f) == 4 && f
                    != backup.number as int ==> final(self).mapper.table_at(f) == old(
                    self,
                ).mapper.table_at(f),
    {
        let ghost s0 = *old(self);
        let ghost rt0 = s0.mapper.root();
        self.mapper.leave_hierarchy(backup.clone());
        let ghost s1 = *self;
        proof {
            assert(s1.mapper.translate_page_spec(old(temp_page).page.number as int)
                == s0.mapper.resolve_from(backup.number as int, old(temp_page).page.number as int));
            assert(s1.mapper.has_l1_path_from(s1.mapper.root(), old(temp_page).page.number as int));
        }
        temp_page.unmap(self);
        proof {
            assert forall|f: int|
                self.mapper.stored(f) && s0.mapper.stored(f) implies self.mapper.level_at(f)
                == s0.mapper.level_at(f) by {
                assert(s1.mapper.frames().contains(f) == s0.mapper.frames().contains(f));
                assert(s0.mapper.frames().contains(f) == s0.mapper.stored(f));
                assert(s1.mapper.frames().contains(f) == s1.mapper.stored(f));
            };
            assert forall|f: int|
                s0.mapper.stored(f) && s0.mapper.level_at(f) == 4 implies self.mapper.stored(
                f,
            ) by {
                assert(s1.mapper.frames().contains(f) == s0.mapper.frames().contains(f));
                assert(s0.mapper.frames().contains(f) == s0.mapper.stored(f));
                assert(s1.mapper.frames().contains(f) == s1.mapper.stored(f));
                assert(s1.mapper.level_at(f) == s0.mapper.level_at(f)) by {
                    assert(Mapper::unchanged_frame(s0.mapper, s1.mapper, f) || f
                        == backup.number as int);
                };
            };
            assert forall|n: int|
                page_valid(n) && p4_index_spec(n) != 511 && n != old(
                    temp_page,
                ).page.number as int implies #[trigger] self.mapper.resolve_from(rt0, n)
                == s0.mapper.resolve_from(rt0, n) by {
                assert(s1.mapper.stored(rt0) && s1.mapper.level_at(rt0) == 4);
                assert(s1.mapper.resolve_from(rt0, n) == s0.mapper.resolve_from(rt0, n));
                assert(rt0 != s1.mapper.root());
                assert(self.mapper.resolve_from(rt0, n) == s1.mapper.resolve_from(rt0, n));
            };
            assert forall|n: int|
                0 <= n && p4_index_spec(n) != 511 implies #[trigger] self.mapper.has_l1_path_from(
                rt0,
                n,
            ) == s0.mapper.has_l1_path_from(rt0, n) by {
                assert(s1.mapper.stored(rt0) && s1.mapper.level_at(rt0) == 4);
                assert(s1.mapper.has_l1_path_from(rt0, n) == s0.mapper.has_l1_path_from(rt0, n));
                assert(rt0 != s1.mapper.root());
                assert(self.mapper.has_l1_path_from(rt0, n) == s1.mapper.has_l1_path_from(rt0, n));
            };
            assert forall|n: int|
                0 <= n && p4_index_spec(n) != 511 && s0.mapper.has_l1_path_from(
                    rt0,
                    n,
                ) implies #[trigger] self.mapper.l1_frame_from(rt0, n) == s0.mapper.l1_frame_from(
                rt0,
                n,
            ) by {
                assert(s1.mapper.stored(rt0) && s1.mapper.level_at(rt0) == 4);
                assert(s1.mapper.has_l1_path_from(rt0, n) == s0.mapper.has_l1_path_from(rt0, n));
                assert(s1.mapper.l1_frame_from(rt0, n) == s0.mapper.l1_frame_from(rt0, n));
                assert(rt0 != s1.mapper.root());
                assert(self.mapper.l1_frame_from(rt0, n) == s1.mapper.l1_frame_from(rt0, n));
            };
            assert forall|n: int|
                #![trigger self.mapper.table_at(self.mapper.l1_frame_from(rt0, n))]
                #![trigger s0.mapper.table_at(s0.mapper.l1_frame_from(rt0, n))]
                page_valid(n) && p4_index_spec(n) != 511 && n != old(temp_page).page.number as int
                    && s0.mapper.has_l1_path_from(rt0, n) implies self.mapper.table_at(
                self.mapper.l1_frame_from(rt0, n),
            )[p1_index_spec(n)] == s0.mapper.table_at(s0.mapper.l1_frame_from(rt0, n))[p1_index_spec(
                n,
            )] by {
                let j4 = p4_index_spec(n);
                let j3 = p3_index_spec(n);
                let j2 = p2_index_spec(n);
                assert(s0.mapper.entry_ok(rt0, j4));
                let g3 = s0.mapper.child_at(rt0, j4)->0;
                assert(s0.mapper.level_at(g3) == 3);
                assert(s0.mapper.entry_ok(g3, j3));
                let g2 = s0.mapper.child_at(g3, j3)->0;
                assert(s0.mapper.level_at(g2) == 2);
                assert(s0.mapper.entry_ok(g2, j2));
                let l1 = s0.mapper.child_at(g2, j2)->0;
                assert(l1 == s0.mapper.l1_frame_from(rt0, n));
                assert(s0.mapper.stored(l1) && s0.mapper.level_at(l1) == 1);
                // The recursive-slot restore touches only the backup root.
                assert(l1 != backup.number as int);
                assert(Mapper::unchanged_frame(s0.mapper, s1.mapper, l1));
                assert(s1.mapper.l1_frame_from(rt0, n) == l1);
                assert(self.mapper.l1_frame_from(rt0, n) == l1);
                // The temporary page's teardown touches only its own path.
                assert(s1.mapper.stored(rt0) && s1.mapper.level_at(rt0) == 4);
                assert(s1.mapper.has_l1_path_from(rt0, n));
                let tl1 = s1.mapper.l1_frame_from(
                    s1.mapper.root(),
                    old(temp_page).page.number as int,
                );
                if l1 == tl1 {
                    s1.mapper.lemma_l1_owner(
                        rt0,
                        n,
                        s1.mapper.root(),
                        old(temp_page).page.number as int,
                    );
                    assert(false);
                }
                assert(s1.mapper.stored(l1) && s1.mapper.level_at(l1) == 1);
                assert(self.mapper.stored(l1));
                assert(self.mapper.table_at(l1) == s1.mapper.table_at(l1));
            };
            assert forall|f: int|
                s0.mapper.stored(f) && s0.mapper.level_at(f) == 4 && f
                    != backup.number as int implies self.mapper.table_at(f) == s0.mapper.table_at(
                f,
            ) by {
                assert(Mapper::unchanged_frame(s0.mapper, s1.mapper, f));
                assert(s1.mapper.stored(f) && s1.mapper.level_at(f) == 4);
                assert(self.mapper.table_at(f) == s1.mapper.table_at(f));
            };
            assert forall|n: int|
                page_valid(n) && p4_index_spec(n) != 511 && n != old(
                    temp_page,
                ).page.number as int implies #[trigger] self.mapper.translate_page_spec(n)
                == s0.mapper.resolve_from(backup.number as int, n) by {
                assert(s1.mapper.translate_page_spec(n) == s0.mapper.resolve_from(
                    backup.number as int,
                    n,
                ));
                assert(self.mapper.resolve_from(s1.mapper.root(), n) == s1.mapper.resolve_from(
                    s1.mapper.root(),
                    n,
                ));
            };
        }
    }

    /// Perform the translation-root switch: the given inactive hierarchy
    /// becomes the active one, and the previous root is handed back as the
    /// new inactive table.  This instant is the only true activation point.
    pub fn switch(&mut self, new_table: InactivePageTable) -> (old_table: InactivePageTable)
        requires
            old(self).mapper.inv(),
            old(self).mapper.stored(new_table.p4_frame.number as int),
            old(self).mapper.level_at(new_table.p4_frame.number as int) == 4,
            old(self).mapper.child_at(new_table.p4_frame.number as int, 511) == Some(
                new_table.p4_frame.number as int,
            ),
        ensures
            final(self).mapper.inv(),
            final(self).mapper.self_mapped(),
            final(self).mapper.root() == new_table.p4_frame.number,
            old_table.p4_frame.number as int == old(self).mapper.root(),
            forall|f: int|
                #[trigger] Mapper::unchanged_frame(old(self).mapper, final(self).mapper, f),
            forall|n: int|
                0 <= n ==> #[trigger] final(self).mapper.translate_page_spec(n) == old(
                    self,
                ).mapper.resolve_from(new_table.p4_frame.number as int, n),
            forall|n: int|
                #[trigger] final(self).mapper.has_l1_path_from(final(self).mapper.root(), n)
                    == old(self).mapper.has_l1_path_from(new_table.p4_frame.number as int, n),
            forall|n: int|
                #[trigger] final(self).mapper.l1_frame_from(final(self).mapper.root(), n) == old(
                    self,
                ).mapper.l1_frame_from(new_table.p4_frame.number as int, n),
    {
        let old_table = InactivePageTable { p4_frame: Frame { number: self.mapper.p4_frame } };
        self.mapper.p4_frame = new_table.p4_frame.number;
        proof {
            Mapper::lemma_retarget(old(self).mapper, self.mapper);
            Mapper::lemma_all_unchanged_walks(
                old(self).mapper,
                self.mapper,
                new_table.p4_frame.number as int,
            );
        }
        old_table
    }
}


/// Physical frame of the text-output buffer.
pub const TEXT_BUFFER_FRAME: u64 = 0xB8;

/// One loaded section of the kernel image: a page-aligned half-open byte
/// range and its permission bits.
#[derive(Debug, Clone, Copy, PartialEq, Eq, Structural)]
pub struct KernelSection {
    pub start: u64,
    pub end: u64,
    pub writable: bool,
    pub executable: bool,
}

/// Number of the section's first frame.
pub open spec fn section_first(s: KernelSection) -> int {
    s.start as int / PAGE_SIZE as int
}

/// Number of the section's last frame.
pub open spec fn section_last(s: KernelSection) -> int {
    (s.end - 1) / PAGE_SIZE as int
}

/// The entry bits a section's frames are mapped with.
pub open spec fn section_flag_bits(s: KernelSection) -> u64 {
    PRESENT | (if s.writable {
        WRITABLE
    } else {
        0
    }) | (if s.executable {
        0
    } else {
        NO_EXECUTE
    })
}

/// A loaded section: page-aligned, non-empty, inside the low canonical
/// half.
pub open spec fn section_wf(s: KernelSection) -> bool {
    s.start % PAGE_SIZE == 0 && s.start < s.end && s.end <= 0x8000_0000_0000
}

/// Page `n` is identity-mapped with exactly the given entry bits.
pub open spec fn identity_mapped(m: Mapper, n: int, bits: u64) -> bool {
    &&& m.has_l1_path_from(m.root(), n)
    &&& m.table_at(m.l1_frame_from(m.root(), n))[p1_index_spec(n)] == pack_entry(n as u64, bits)
    &&& m.translate_page_spec(n) == Some(n)
}

/// Every frame of the first `k` sections is identity-mapped with its
/// section's bits.
pub open spec fn sections_mapped(m: Mapper, sections: Seq<KernelSection>, k: int) -> bool {
    forall|i: int, n: int|
        0 <= i < k && section_first(#[trigger] sections[i]) <= n <= section_last(sections[i])
            ==> identity_mapped(m, n, section_flag_bits(sections[i])) && (#[trigger] m.translate_page_spec(n)) == Some(n)
}

/// Page `n` still has to be mapped: it belongs to a section from `k` on,
/// to the text buffer, or to the boot-info range.
pub open spec fn remap_target(
    sections: Seq<KernelSection>,
    k: int,
    mbf: int,
    mbl: int,
    n: int,
) -> bool {
    ||| exists|i: int|
        k <= i < sections.len() && section_first(#[trigger] sections[i]) <= n <= section_last(
            sections[i],
        )
    ||| n == TEXT_BUFFER_FRAME
    ||| mbf <= n <= mbl
}

/// Total frame count of the sections from `k` on.
pub open spec fn tail_frames(sections: Seq<KernelSection>, k: int) -> int
    decreases sections.len() - k,
{
    if k < 0 || k >= sections.len() {
        0
    } else {
        (section_last(sections[k]) - section_first(sections[k]) + 1) + tail_frames(
            sections,
            k + 1,
        )
    }
}

/// A frame of the low canonical half is a valid page outside the reserved
/// self-map slot.
pub proof fn lemma_low_page(n: int)
    requires
        0 <= n < 0x8_0000_0000,
    ensures
        page_valid(n),
        p4_index_spec(n) != 511,
{
    lemma_div_is_ordered(n, 0x7_FFFF_FFFF, 0x800_0000);
    lemma_small_mod((n / 0x800_0000) as nat, 512);
}

/// The section tail counts are never negative.
pub proof fn lemma_tail_frames_bounds(sections: Seq<KernelSection>, k: int)
    requires
        forall|i: int| 0 <= i < sections.len() ==> section_wf(#[trigger] sections[i]),
    ensures
        0 <= tail_frames(sections, k),
    decreases sections.len() - k,
{
    if 0 <= k && k < sections.len() {
        lemma_div_is_ordered(sections[k].start as int, sections[k].end - 1, PAGE_SIZE as int);
        lemma_tail_frames_bounds(sections, k + 1);
    }
}

/// Decomposition is lossless: recombining the four level indices by the
/// documented shifts yields the page number back, modulo the 36 index bits;
/// a valid page number is recovered exactly, up to the fixed sign-extension
/// bits of the high canonical half.
pub proof fn lemma_page_index_round_trip(n: int)
    requires
        0 <= n,
    ensures
        p4_index_spec(n) * 0x800_0000 + p3_index_spec(n) * 0x4_0000 + p2_index_spec(n) * 0x200
            + p1_index_spec(n) == n % 0x10_0000_0000,
        page_valid(n) && n < LOW_HALF_END ==> p4_index_spec(n) * 0x800_0000 + p3_index_spec(n)
            * 0x4_0000 + p2_index_spec(n) * 0x200 + p1_index_spec(n) == n,
        page_valid(n) && n >= LOW_HALF_END ==> p4_index_spec(n) * 0x800_0000 + p3_index_spec(n)
            * 0x4_0000 + p2_index_spec(n) * 0x200 + p1_index_spec(n) == n - (PAGE_LIMIT
            - 0x10_0000_0000),
{
    lemma_breakdown(n, 0x800_0000, 512);
    lemma_breakdown(n, 0x4_0000, 512);
    lemma_breakdown(n, 0x200, 512);
    assert(n % 0x800_0000 == 0x4_0000 * ((n / 0x4_0000) % 512) + n % 0x4_0000) by {
        lemma_breakdown(n, 0x4_0000, 512);
        assert(0x4_0000 * 512 == 0x800_0000);
    };
    assert(n % 0x4_0000 == 0x200 * ((n / 0x200) % 512) + n % 0x200) by {
        lemma_breakdown(n, 0x200, 512);
        assert(0x200 * 512 == 0x4_0000);
    };
    assert(n % 0x10_0000_0000 == 0x800_0000 * ((n / 0x800_0000) % 512) + n % 0x800_0000) by {
        lemma_breakdown(n, 0x800_0000, 512);
        assert(0x800_0000 * 512 == 0x10_0000_0000);
    };
    if page_valid(n) && n >= LOW_HALF_END {
        assert(n % 0x10_0000_0000 == n - (PAGE_LIMIT - 0x10_0000_0000)) by {
            assert(n - (PAGE_LIMIT - 0x10_0000_0000) == n % 0x10_0000_0000) by (nonlinear_arith)
                requires
                    HIGH_HALF_START <= n < PAGE_LIMIT,
            ;
        };
    }
}

/// Two valid pages with the same four level indices are the same page.
pub proof fn lemma_page_from_indices(n: int, m: int)
    requires
        page_valid(n),
        page_valid(m),
        p4_index_spec(n) == p4_index_spec(m),
        p3_index_spec(n) == p3_index_spec(m),
        p2_index_spec(n) == p2_index_spec(m),
        p1_index_spec(n) == p1_index_spec(m),
    ensures
        n == m,
{
    lemma_page_index_round_trip(n);
    lemma_page_index_round_trip(m);
    let rec = p4_index_spec(n) * 0x800_0000 + p3_index_spec(n) * 0x4_0000 + p2_index_spec(n)
        * 0x200 + p1_index_spec(n);
    assert(p4_index_spec(n) < 256 ==> rec < 0x8_0000_0000) by (nonlinear_arith)
        requires
            rec == p4_index_spec(n) * 0x800_0000 + p3_index_spec(n) * 0x4_0000 + p2_index_spec(n)
                * 0x200 + p1_index_spec(n),
            0 <= p4_index_spec(n) < 512,
            0 <= p3_index_spec(n) < 512,
            0 <= p2_index_spec(n) < 512,
            0 <= p1_index_spec(n) < 512,
    ;
    assert(p4_index_spec(n) >= 256 ==> rec >= 0x8_0000_0000) by (nonlinear_arith)
        requires
            rec == p4_index_spec(n) * 0x800_0000 + p3_index_spec(n) * 0x4_0000 + p2_index_spec(n)
                * 0x200 + p1_index_spec(n),
            0 <= p3_index_spec(n),
            0 <= p2_index_spec(n),
            0 <= p1_index_spec(n),
    ;
    if n < LOW_HALF_END {
        assert(rec == n);
        assert(rec < 0x8_0000_0000);
        if m >= LOW_HALF_END {
            assert(rec == m - (PAGE_LIMIT - 0x10_0000_0000));
            assert(rec >= 0x10_0000_0000 - 0x8_0000_0000);
            assert(false);
        }
    } else {
        assert(rec == n - (PAGE_LIMIT - 0x10_0000_0000));
        assert(rec >= 0x10_0000_0000 - 0x8_0000_0000);
        if m < LOW_HALF_END {
            assert(rec == m);
            assert(rec < 0x8_0000_0000);
            assert(false);
        }
    }
}

} // verus!
