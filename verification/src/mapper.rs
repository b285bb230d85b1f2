//! The table store and the mapper.
//!
//! Physical memory holding page tables is represented explicitly: a store of
//! slots, each pairing a physical frame number with the 512-entry table kept
//! in that frame and (as ghost data) the level the table serves at.  The
//! mapper owns the store together with the frame number of the level-4 table
//! that table walks currently start from, and offers translate / map / unmap
//! over that state.

use vstd::prelude::*;
use crate::entry::{
    entry_frame, entry_huge, entry_present, pack_entry, Entry, EntryFlags, PRESENT, WRITABLE,
};
use crate::memory::{Frame, FrameAllocator, FRAME_LIMIT, PAGE_SIZE};
use crate::paging::{
    p1_index_spec, p2_index_spec, p3_index_spec, p4_index_spec, page_valid, Page,
};
use crate::table::{Table, ENTRY_COUNT};

verus! {

/// Index of the self-referential slot of a level-4 table.
pub const SELF_MAP_INDEX: usize = 511;

/// One physical frame of the store, holding a page table.
pub struct TableSlot {
    /// Number of the physical frame the table lives in.
    pub frame: u64,
    /// Level the table serves at (4 down to 1); ghost bookkeeping only.
    pub level: Ghost<nat>,
    /// The 512 entries kept in the frame.
    pub table: Table,
}

impl TableSlot {
    /// A slot for `frame` holding `table` at the given level.
    pub fn new(frame: u64, level: u64, table: Table) -> (r: TableSlot)
        ensures
            r.frame == frame,
            r.level@ == level as nat,
            r.table == table,
    {
        TableSlot { frame, level: Ghost(level as nat), table }
    }
}

/// The table store plus the frame table walks start from.
pub struct Mapper {
    /// Every physical frame currently holding a page table.
    pub slots: Vec<TableSlot>,
    /// Frame number of the level-4 table that walks resolve through.
    pub p4_frame: u64,
}

impl Mapper {
    /// The frame numbers holding tables.
    pub open spec fn stored(self, f: int) -> bool {
        exists|i: int| 0 <= i < self.slots@.len() && self.slots@[i].frame == f
    }

    /// Index in the store of the slot for frame `f`.
    pub open spec fn slot_index(self, f: int) -> int {
        choose|i: int| 0 <= i < self.slots@.len() && self.slots@[i].frame == f
    }

    /// Contents of the table kept in frame `f`.
    pub open spec fn table_at(self, f: int) -> Seq<u64> {
        if self.stored(f) {
            self.slots@[self.slot_index(f)].table@
        } else {
            Seq::empty()
        }
    }

    /// Level of the table kept in frame `f` (0 when `f` holds no table).
    pub open spec fn level_at(self, f: int) -> nat {
        if self.stored(f) {
            self.slots@[self.slot_index(f)].level@
        } else {
            0
        }
    }

    /// The set of frame numbers holding tables.
    pub open spec fn frames(self) -> Set<int> {
        Set::new(|f: int| self.stored(f))
    }

    /// Frame number of the walk root.
    pub open spec fn root(self) -> int {
        self.p4_frame as int
    }

    /// The table frame that entry `k` of the table in `f` points to, if the
    /// entry is a present non-huge pointer.
    pub open spec fn child_at(self, f: int, k: int) -> Option<int> {
        let e = self.table_at(f)[k];
        if entry_present(e) && !entry_huge(e) {
            Some(entry_frame(e) as int)
        } else {
            None
        }
    }

    /// No two slots claim the same frame.
    pub open spec fn distinct(self) -> bool {
        forall|i: int, j: int|
            0 <= i < j < self.slots@.len() ==> self.slots@[i].frame != self.slots@[j].frame
    }

    /// Shape of one slot: full table, meaningful level, in-range frame.
    pub open spec fn slot_basic_wf(s: TableSlot) -> bool {
        s.table@.len() == 512 && 1 <= s.level@ <= 4 && s.frame < FRAME_LIMIT
    }

    /// Discipline of entry `k` of the table in frame `f`:
    /// - entries are zero or present;
    /// - a level-4 table points to level-3 tables, except its last slot,
    ///   which is always a present pointer to a level-4 table (the
    ///   recursive-mapping slot), and holds no huge mappings;
    /// - a level-3 (level-2) table points to level-2 (level-1) tables, and
    ///   its huge mappings are 1 GiB-aligned (2 MiB-aligned).
    pub open spec fn entry_ok(self, f: int, k: int) -> bool {
        let lv = self.level_at(f);
        let e = self.table_at(f)[k];
        let c = entry_frame(e) as int;
        &&& (e == 0 || entry_present(e))
        &&& (lv == 4 ==> {
            &&& (entry_present(e) ==> !entry_huge(e))
            &&& (entry_present(e) && k != 511 ==> self.stored(c) && self.level_at(c) == 3)
            &&& (k == 511 ==> entry_present(e) && self.stored(c) && self.level_at(c) == 4)
        })
        &&& (lv == 3 ==> {
            &&& (entry_present(e) && !entry_huge(e) ==> self.stored(c) && self.level_at(c) == 2)
            &&& (entry_present(e) && entry_huge(e) ==> c % 0x40000 == 0)
        })
        &&& (lv == 2 ==> {
            &&& (entry_present(e) && !entry_huge(e) ==> self.stored(c) && self.level_at(c) == 1)
            &&& (entry_present(e) && entry_huge(e) ==> c % 512 == 0)
        })
    }

    /// Each table frame of level 3 or below has at most one table entry
    /// pointing to it: the hierarchy below the roots is a forest.
    pub open spec fn children_injective(self) -> bool {
        forall|f: int, k: int, g: int, l: int|
            {
                (self.stored(f) && self.stored(g) && 0 <= k < 512 && 0 <= l < 512 && self.level_at(
                    f,
                ) >= 2 && self.level_at(g) >= 2 && (#[trigger] self.child_at(f, k)) is Some && (
                #[trigger] self.child_at(g, l)) is Some && self.child_at(f, k) == self.child_at(
                    g,
                    l,
                ) && self.level_at(self.child_at(f, k)->0) <= 3) ==> (f == g && k == l)
            }
    }

    /// The store invariant: distinct well-shaped slots, entry discipline
    /// everywhere, injective child pointers, and a level-4 walk root.
    pub open spec fn inv(self) -> bool {
        &&& self.distinct()
        &&& forall|i: int|
            0 <= i < self.slots@.len() ==> Mapper::slot_basic_wf(#[trigger] self.slots@[i])
        &&& forall|f: int, k: int|
            self.stored(f) && 0 <= k < 512 ==> #[trigger] self.entry_ok(f, k)
        &&& self.children_injective()
        &&& self.stored(self.root())
        &&& self.level_at(self.root()) == 4
    }

    /// The walk root's own last slot points back to the root: the recursive
    /// mapping is in place.
    pub open spec fn self_mapped(self) -> bool {
        self.child_at(self.root(), 511) == Some(self.root())
    }

    /// Resolve page number `n` by walking the hierarchy rooted at `r`:
    /// follow present non-huge pointers through levels 4, 3 and 2, stop
    /// early at a huge leaf of level 3 (1 GiB) or level 2 (2 MiB), and read
    /// the final frame from level 1.
    pub open spec fn resolve_from(self, r: int, n: int) -> Option<int> {
        match self.child_at(r, p4_index_spec(n)) {
            None => None,
            Some(f3) => {
                let e3 = self.table_at(f3)[p3_index_spec(n)];
                if !entry_present(e3) {
                    None
                } else if entry_huge(e3) {
                    Some(entry_frame(e3) + p2_index_spec(n) * 512 + p1_index_spec(n))
                } else {
                    let f2 = entry_frame(e3) as int;
                    let e2 = self.table_at(f2)[p2_index_spec(n)];
                    if !entry_present(e2) {
                        None
                    } else if entry_huge(e2) {
                        Some(entry_frame(e2) + p1_index_spec(n))
                    } else {
                        let f1 = entry_frame(e2) as int;
                        let e1 = self.table_at(f1)[p1_index_spec(n)];
                        if entry_present(e1) {
                            Some(entry_frame(e1) as int)
                        } else {
                            None
                        }
                    }
                }
            },
        }
    }

    /// The frame page `n` currently translates to, if any.
    pub open spec fn translate_page_spec(self, n: int) -> Option<int> {
        self.resolve_from(self.root(), n)
    }

    /// The physical address virtual address `addr` translates to, if any.
    pub open spec fn translate_spec(self, addr: int) -> Option<int> {
        match self.translate_page_spec(addr / PAGE_SIZE as int) {
            Some(f) => Some(f * PAGE_SIZE as int + addr % PAGE_SIZE as int),
            None => None,
        }
    }

    /// The walk from `r` for page `n` reaches a level-1 table: every step is
    /// a present non-huge pointer.
    pub open spec fn has_l1_path_from(self, r: int, n: int) -> bool {
        match self.child_at(r, p4_index_spec(n)) {
            None => false,
            Some(f3) => match self.child_at(f3, p3_index_spec(n)) {
                None => false,
                Some(f2) => self.child_at(f2, p2_index_spec(n)) is Some,
            },
        }
    }

    /// The level-1 table frame the walk from `r` for page `n` ends in.
    pub open spec fn l1_frame_from(self, r: int, n: int) -> int {
        self.child_at(
            self.child_at(self.child_at(r, p4_index_spec(n))->0, p3_index_spec(n))->0,
            p2_index_spec(n),
        )->0
    }

    /// Page `n` can be mapped from root `r`: along its path every entry
    /// either is unused (a table will be created there) or points on to the
    /// next level, and the final level-1 slot is unused.
    pub open spec fn mappable_from(self, r: int, n: int) -> bool {
        let e4 = self.table_at(r)[p4_index_spec(n)];
        e4 == 0 || (entry_present(e4) && !entry_huge(e4) && {
            let e3 = self.table_at(entry_frame(e4) as int)[p3_index_spec(n)];
            e3 == 0 || (entry_present(e3) && !entry_huge(e3) && {
                let e2 = self.table_at(entry_frame(e3) as int)[p2_index_spec(n)];
                e2 == 0 || (entry_present(e2) && !entry_huge(e2) && self.table_at(
                    entry_frame(e2) as int,
                )[p1_index_spec(n)] == 0)
            })
        })
    }

    /// Page `n` can be mapped in the current hierarchy.
    pub open spec fn mappable(self, n: int) -> bool {
        self.mappable_from(self.root(), n)
    }

    /// How many intermediate tables mapping page `n` would have to create.
    pub open spec fn tables_needed(self, n: int) -> int {
        let e4 = self.table_at(self.root())[p4_index_spec(n)];
        if e4 == 0 {
            3
        } else {
            let e3 = self.table_at(entry_frame(e4) as int)[p3_index_spec(n)];
            if e3 == 0 {
                2
            } else {
                let e2 = self.table_at(entry_frame(e3) as int)[p2_index_spec(n)];
                if e2 == 0 {
                    1
                } else {
                    0
                }
            }
        }
    }

    /// Frame `f` holds the same table, at the same level, in both states.
    pub open spec fn unchanged_frame(pre: Mapper, post: Mapper, f: int) -> bool {
        post.stored(f) == pre.stored(f) && post.table_at(f) == pre.table_at(f) && post.level_at(f)
            == pre.level_at(f)
    }

    /// The slot at index `i` is the one `slot_index` finds for its frame.
    proof fn lemma_slot(self, i: int)
        requires
            self.distinct(),
            0 <= i < self.slots@.len(),
        ensures
            self.stored(self.slots@[i].frame as int),
            self.slot_index(self.slots@[i].frame as int) == i,
            self.table_at(self.slots@[i].frame as int) == self.slots@[i].table@,
            self.level_at(self.slots@[i].frame as int) == self.slots@[i].level@,
    {
        let f = self.slots@[i].frame as int;
        assert(self.stored(f));
        let j = self.slot_index(f);
        if j != i {
            if j < i {
                assert(self.slots@[j].frame != self.slots@[i].frame);
            } else {
                assert(self.slots@[i].frame != self.slots@[j].frame);
            }
        }
    }

    /// One walk step at a time, a change confined to a single frame `cf`
    /// that walks from `r` can reach at most as their final level-1 table
    /// leaves every walk intact: paths are preserved, and the outcome can
    /// only change for pages whose level-1 table is `cf` itself.  `cf` may
    /// be no stored frame at all (then nothing reachable changed), a level-1
    /// table, or a level-4 table other than `r` while `r`'s recursive
    /// mapping points at `r`.
    pub open spec fn unpointed(s: Mapper, cf: int) -> bool {
        forall|g: int, j: int|
            s.stored(g) && s.level_at(g) >= 2 && 0 <= j < 512 ==> #[trigger] s.child_at(g, j)
                != Some(cf)
    }

    proof fn lemma_walk_preserved_at(pre: Mapper, post: Mapper, r: int, cf: int, n: int)
        requires
            pre.inv(),
            pre.stored(r),
            pre.level_at(r) == 4,
            forall|f: int| f != cf ==> #[trigger] Mapper::unchanged_frame(pre, post, f),
            (!pre.stored(cf)) || pre.level_at(cf) == 1 || (pre.level_at(cf) == 4 && cf != r
                && pre.child_at(r, 511) == Some(r)) || (cf != r && Mapper::unpointed(pre, cf)),
            0 <= n,
        ensures
            post.has_l1_path_from(r, n) == pre.has_l1_path_from(r, n),
            pre.has_l1_path_from(r, n) ==> post.l1_frame_from(r, n) == pre.l1_frame_from(r, n),
            !(pre.has_l1_path_from(r, n) && pre.l1_frame_from(r, n) == cf) ==> post.resolve_from(
                r,
                n,
            ) == pre.resolve_from(r, n) && post.mappable_from(r, n) == pre.mappable_from(r, n),
            !pre.stored(cf) || (cf != r && Mapper::unpointed(pre, cf)) ==> post.resolve_from(r, n)
                == pre.resolve_from(r, n) && post.mappable_from(r, n) == pre.mappable_from(r, n),
    {
        let i4 = p4_index_spec(n);
        let i3 = p3_index_spec(n);
        let i2 = p2_index_spec(n);
        let i1 = p1_index_spec(n);
        assert(Mapper::unchanged_frame(pre, post, r));
        assert(pre.entry_ok(r, i4));
        let e4 = pre.table_at(r)[i4];
        if entry_present(e4) && !entry_huge(e4) {
            let f3 = entry_frame(e4) as int;
            assert(pre.child_at(r, i4) == Some(f3));
            if i4 == 511 {
                assert(pre.level_at(f3) == 4);
            } else {
                assert(pre.level_at(f3) == 3);
            }
            assert(f3 != cf);
            assert(Mapper::unchanged_frame(pre, post, f3));
            assert(pre.entry_ok(f3, i3));
            let e3 = pre.table_at(f3)[i3];
            if entry_present(e3) && !entry_huge(e3) {
                let f2 = entry_frame(e3) as int;
                assert(pre.child_at(f3, i3) == Some(f2));
                assert(2 <= pre.level_at(f2) <= 4);
                assert(f2 != cf);
                assert(Mapper::unchanged_frame(pre, post, f2));
                assert(pre.entry_ok(f2, i2));
                let e2 = pre.table_at(f2)[i2];
                if entry_present(e2) && !entry_huge(e2) {
                    let f1 = entry_frame(e2) as int;
                    assert(pre.child_at(f2, i2) == Some(f1));
                    assert(pre.stored(f1) && 1 <= pre.level_at(f1) <= 4);
                    if f1 != cf {
                        assert(Mapper::unchanged_frame(pre, post, f1));
                    }
                }
            }
        }
    }

    /// Whole-walk form of `lemma_walk_preserved_at`.
    proof fn lemma_walk_preserved(pre: Mapper, post: Mapper, r: int, cf: int)
        requires
            pre.inv(),
            pre.stored(r),
            pre.level_at(r) == 4,
            forall|f: int| f != cf ==> #[trigger] Mapper::unchanged_frame(pre, post, f),
            (!pre.stored(cf)) || pre.level_at(cf) == 1 || (pre.level_at(cf) == 4 && cf != r
                && pre.child_at(r, 511) == Some(r)),
        ensures
            forall|n: int|
                0 <= n ==> #[trigger] post.has_l1_path_from(r, n) == pre.has_l1_path_from(r, n),
            forall|n: int|
                0 <= n && pre.has_l1_path_from(r, n) ==> #[trigger] post.l1_frame_from(r, n)
                    == pre.l1_frame_from(r, n),
            forall|n: int|
                0 <= n && !(pre.has_l1_path_from(r, n) && pre.l1_frame_from(r, n) == cf)
                    ==> #[trigger] post.resolve_from(r, n) == pre.resolve_from(r, n)
                    && post.mappable_from(r, n) == pre.mappable_from(r, n),
    {
        assert forall|n: int| 0 <= n implies #[trigger] post.has_l1_path_from(r, n)
            == pre.has_l1_path_from(r, n) by {
            Mapper::lemma_walk_preserved_at(pre, post, r, cf, n);
        };
        assert forall|n: int| 0 <= n && pre.has_l1_path_from(r, n) implies #[trigger] post.l1_frame_from(
            r,
            n,
        ) == pre.l1_frame_from(r, n) by {
            Mapper::lemma_walk_preserved_at(pre, post, r, cf, n);
        };
        assert forall|n: int|
            0 <= n && !(pre.has_l1_path_from(r, n) && pre.l1_frame_from(r, n)
                == cf) implies #[trigger] post.resolve_from(r, n) == pre.resolve_from(r, n)
            && post.mappable_from(r, n) == pre.mappable_from(r, n) by {
            Mapper::lemma_walk_preserved_at(pre, post, r, cf, n);
        };
    }

    /// Turning one unused slot of an intermediate table into a pointer to a
    /// freshly zeroed table changes no translation and no mappability,
    /// other than through the reserved self-map slot: pages routed through
    /// the new table find only unused entries behind it.
    proof fn lemma_walk_preserved_create_at(
        pre: Mapper,
        post: Mapper,
        r: int,
        p: int,
        k: int,
        c: u64,
        n: int,
    )
        requires
            pre.inv(),
            pre.stored(r),
            pre.level_at(r) == 4,
            pre.stored(p),
            2 <= pre.level_at(p) <= 4,
            pre.level_at(p) == 4 ==> k != 511,
            0 <= k < 512,
            pre.table_at(p)[k] == 0,
            pre.stored(c as int),
            pre.level_at(c as int) == pre.level_at(p) - 1,
            forall|j: int| 0 <= j < 512 ==> pre.table_at(c as int)[j] == 0,
            forall|g: int, j: int|
                pre.stored(g) && pre.level_at(g) >= 2 && 0 <= j < 512 ==> #[trigger] pre.child_at(
                    g,
                    j,
                ) != Some(c as int),
            forall|f: int| f != p ==> #[trigger] Mapper::unchanged_frame(pre, post, f),
            post.stored(p) && post.level_at(p) == pre.level_at(p),
            post.table_at(p) == pre.table_at(p).update(k, pack_entry(c, PRESENT | WRITABLE)),
            page_valid(n),
            p4_index_spec(n) != 511,
        ensures
            post.resolve_from(r, n) == pre.resolve_from(r, n),
            post.mappable_from(r, n) == pre.mappable_from(r, n),
    {
        let i4 = p4_index_spec(n);
        let i3 = p3_index_spec(n);
        let i2 = p2_index_spec(n);
        let i1 = p1_index_spec(n);
        crate::entry::lemma_present_writable_flags();
        crate::entry::lemma_entry_round_trip(c, PRESENT | WRITABLE);
        crate::entry::lemma_zero_entry();
        let packed = pack_entry(c, PRESENT | WRITABLE);
        assert(entry_present(packed) && !entry_huge(packed) && entry_frame(packed) == c);
        assert(c as int != p);
        assert(Mapper::unchanged_frame(pre, post, c as int));
        if r == p && i4 == k {
            // The changed slot is this page's level-4 entry: the walk now
            // continues into the zeroed table and still resolves nothing.
            assert(pre.resolve_from(r, n) is None);
            assert(pre.mappable_from(r, n));
            assert(post.table_at(r)[i4] == packed);
            assert(post.table_at(c as int)[i3] == 0);
            assert(post.resolve_from(r, n) is None);
            assert(post.mappable_from(r, n));
        } else {
            if r != p {
                assert(Mapper::unchanged_frame(pre, post, r));
            }
            assert(post.table_at(r)[i4] == pre.table_at(r)[i4]);
            assert(pre.entry_ok(r, i4));
            let e4 = pre.table_at(r)[i4];
            if entry_present(e4) && !entry_huge(e4) {
                let f3 = entry_frame(e4) as int;
                assert(pre.level_at(f3) == 3);
                assert(pre.child_at(r, i4) == Some(f3));
                assert(f3 != c as int);
                if f3 == p && i3 == k {
                    assert(pre.resolve_from(r, n) is None);
                    assert(pre.mappable_from(r, n));
                    assert(post.table_at(f3)[i3] == packed);
                    assert(post.table_at(c as int)[i2] == 0);
                    assert(post.resolve_from(r, n) is None);
                    assert(post.mappable_from(r, n));
                } else {
                    if f3 != p {
                        assert(Mapper::unchanged_frame(pre, post, f3));
                    }
                    assert(post.table_at(f3)[i3] == pre.table_at(f3)[i3]);
                    assert(pre.entry_ok(f3, i3));
                    let e3 = pre.table_at(f3)[i3];
                    if entry_present(e3) && !entry_huge(e3) {
                        let f2 = entry_frame(e3) as int;
                        assert(pre.level_at(f2) == 2);
                        assert(pre.child_at(f3, i3) == Some(f2));
                        assert(f2 != c as int);
                        if f2 == p && i2 == k {
                            assert(pre.resolve_from(r, n) is None);
                            assert(pre.mappable_from(r, n));
                            assert(post.table_at(f2)[i2] == packed);
                            assert(post.table_at(c as int)[i1] == 0);
                            assert(post.resolve_from(r, n) is None);
                            assert(post.mappable_from(r, n));
                        } else {
                            if f2 != p {
                                assert(Mapper::unchanged_frame(pre, post, f2));
                            }
                            assert(post.table_at(f2)[i2] == pre.table_at(f2)[i2]);
                            assert(pre.entry_ok(f2, i2));
                            let e2 = pre.table_at(f2)[i2];
                            if entry_present(e2) && !entry_huge(e2) {
                                let f1 = entry_frame(e2) as int;
                                assert(pre.level_at(f1) == 1);
                                assert(f1 != p);
                                assert(Mapper::unchanged_frame(pre, post, f1));
                            }
                        }
                    }
                }
            }
        }
    }

    /// Frame `p` hangs off root `r` at its level's depth, reached without
    /// the reserved self-map slot: it is the root itself, or a table some
    /// chain of one to three non-511 child pointers away from it.
    pub open spec fn on_walk_path(self, r: int, p: int) -> bool {
        ||| p == r
        ||| (self.level_at(p) == 3 && exists|a: int|
            0 <= a < 511 && #[trigger] self.child_at(r, a) == Some(p))
        ||| (self.level_at(p) == 2 && exists|a: int, b: int|
            0 <= a < 511 && 0 <= b < 512 && self.child_at(r, a) is Some && #[trigger] self.child_at(
                self.child_at(r, a)->0,
                b,
            ) == Some(p))
        ||| (self.level_at(p) == 1 && exists|a: int, b: int, c: int|
            0 <= a < 511 && 0 <= b < 512 && 0 <= c < 512 && self.child_at(r, a) is Some
                && self.child_at(self.child_at(r, a)->0, b) is Some && #[trigger] self.child_at(
                self.child_at(self.child_at(r, a)->0, b)->0,
                c,
            ) == Some(p))
    }

    /// A change confined to one table on the walk path of the current root
    /// is invisible to every other hierarchy: the forest structure of the
    /// store (injective child pointers) keeps the subtrees of two roots
    /// disjoint, so a walk from another root never reads the changed table.
    proof fn lemma_other_root_preserved(pre: Mapper, post: Mapper, rr: int, p: int, n: int)
        requires
            pre.inv(),
            pre.stored(rr),
            pre.level_at(rr) == 4,
            rr != pre.root(),
            pre.stored(p),
            pre.on_walk_path(pre.root(), p),
            forall|f: int| f != p ==> #[trigger] Mapper::unchanged_frame(pre, post, f),
            post.stored(p),
            post.level_at(p) == pre.level_at(p),
            0 <= n,
            p4_index_spec(n) != 511,
        ensures
            post.has_l1_path_from(rr, n) == pre.has_l1_path_from(rr, n),
            pre.has_l1_path_from(rr, n) ==> post.l1_frame_from(rr, n) == pre.l1_frame_from(rr, n),
            post.resolve_from(rr, n) == pre.resolve_from(rr, n),
            post.mappable_from(rr, n) == pre.mappable_from(rr, n),
    {
        let rt = pre.root();
        let i4 = p4_index_spec(n);
        let i3 = p3_index_spec(n);
        let i2 = p2_index_spec(n);
        assert(rr != p || pre.level_at(p) == 4);
        assert(rr != p);
        assert(Mapper::unchanged_frame(pre, post, rr));
        assert(pre.entry_ok(rr, i4));
        let e4 = pre.table_at(rr)[i4];
        if entry_present(e4) && !entry_huge(e4) {
            let t1 = entry_frame(e4) as int;
            assert(pre.child_at(rr, i4) == Some(t1));
            assert(pre.level_at(t1) == 3);
            assert(t1 != p) by {
                if t1 == p {
                    assert(pre.level_at(p) == 3);
                    let a = choose|a: int| 0 <= a < 511 && pre.child_at(rt, a) == Some(p);
                    assert(pre.child_at(rt, a) == Some(p));
                    assert(rr == rt);
                }
            };
            assert(Mapper::unchanged_frame(pre, post, t1));
            assert(pre.entry_ok(t1, i3));
            let e3 = pre.table_at(t1)[i3];
            if entry_present(e3) && !entry_huge(e3) {
                let t2 = entry_frame(e3) as int;
                assert(pre.child_at(t1, i3) == Some(t2));
                assert(pre.level_at(t2) == 2);
                assert(t2 != p) by {
                    if t2 == p {
                        assert(pre.level_at(p) == 2);
                        let (a, b) = choose|a: int, b: int|
                            0 <= a < 511 && 0 <= b < 512 && pre.child_at(rt, a) is Some
                                && pre.child_at(pre.child_at(rt, a)->0, b) == Some(p);
                        let x = pre.child_at(rt, a)->0;
                        assert(pre.entry_ok(rt, a));
                        assert(pre.level_at(x) == 3);
                        assert(pre.child_at(x, b) == Some(p));
                        assert(t1 == x && i3 == b);
                        assert(rr == rt);
                    }
                };
                assert(Mapper::unchanged_frame(pre, post, t2));
                assert(pre.entry_ok(t2, i2));
                let e2 = pre.table_at(t2)[i2];
                if entry_present(e2) && !entry_huge(e2) {
                    let t3 = entry_frame(e2) as int;
                    assert(pre.child_at(t2, i2) == Some(t3));
                    assert(pre.level_at(t3) == 1);
                    assert(t3 != p) by {
                        if t3 == p {
                            assert(pre.level_at(p) == 1);
                            let (a, b, c) = choose|a: int, b: int, c: int|
                                0 <= a < 511 && 0 <= b < 512 && 0 <= c < 512 && pre.child_at(
                                    rt,
                                    a,
                                ) is Some && pre.child_at(pre.child_at(rt, a)->0, b) is Some
                                    && pre.child_at(
                                    pre.child_at(pre.child_at(rt, a)->0, b)->0,
                                    c,
                                ) == Some(p);
                            let x = pre.child_at(rt, a)->0;
                            assert(pre.entry_ok(rt, a));
                            assert(pre.level_at(x) == 3);
                            let y = pre.child_at(x, b)->0;
                            assert(pre.entry_ok(x, b));
                            assert(pre.level_at(y) == 2);
                            assert(pre.child_at(y, c) == Some(p));
                            assert(t2 == y && i2 == c);
                            assert(t1 == x && i3 == b);
                            assert(rr == rt);
                        }
                    };
                    assert(Mapper::unchanged_frame(pre, post, t3));
                }
            }
        }
    }

    /// A walk-path fact survives changes that leave all previously stored
    /// frames as they were (such as appending a fresh table).
    proof fn lemma_on_walk_path_transfer(pre: Mapper, mid: Mapper, r: int, p: int)
        requires
            pre.inv(),
            pre.stored(r),
            pre.level_at(r) == 4,
            pre.on_walk_path(r, p),
            pre.stored(p),
            forall|f: int| pre.stored(f) ==> #[trigger] Mapper::unchanged_frame(pre, mid, f),
        ensures
            mid.on_walk_path(r, p),
    {
        assert(Mapper::unchanged_frame(pre, mid, r));
        assert(Mapper::unchanged_frame(pre, mid, p));
        if p == r {
        } else if pre.level_at(p) == 3 {
            let a = choose|a: int| 0 <= a < 511 && pre.child_at(r, a) == Some(p);
            assert(mid.child_at(r, a) == Some(p));
        } else if pre.level_at(p) == 2 {
            let (a, b) = choose|a: int, b: int|
                0 <= a < 511 && 0 <= b < 512 && pre.child_at(r, a) is Some && pre.child_at(
                    pre.child_at(r, a)->0,
                    b,
                ) == Some(p);
            let x = pre.child_at(r, a)->0;
            assert(pre.entry_ok(r, a));
            assert(pre.stored(x));
            assert(Mapper::unchanged_frame(pre, mid, x));
            assert(mid.child_at(r, a) == Some(x));
            assert(mid.child_at(x, b) == Some(p));
        } else {
            let (a, b, c) = choose|a: int, b: int, c: int|
                0 <= a < 511 && 0 <= b < 512 && 0 <= c < 512 && pre.child_at(r, a) is Some
                    && pre.child_at(pre.child_at(r, a)->0, b) is Some && pre.child_at(
                    pre.child_at(pre.child_at(r, a)->0, b)->0,
                    c,
                ) == Some(p);
            let x = pre.child_at(r, a)->0;
            assert(pre.entry_ok(r, a));
            assert(pre.stored(x));
            assert(Mapper::unchanged_frame(pre, mid, x));
            let y = pre.child_at(x, b)->0;
            assert(pre.entry_ok(x, b));
            assert(pre.stored(y));
            assert(Mapper::unchanged_frame(pre, mid, y));
            assert(mid.child_at(r, a) == Some(x));
            assert(mid.child_at(x, b) == Some(y));
            assert(mid.child_at(y, c) == Some(p));
        }
    }

    /// A page whose walk already reaches a level-1 table keeps that exact
    /// path when an unused slot elsewhere is turned into a pointer to a
    /// fresh table: present entries are never modified.
    proof fn lemma_path_persists_create(
        pre: Mapper,
        post: Mapper,
        r: int,
        p: int,
        k: int,
        c: u64,
        q: int,
    )
        requires
            pre.inv(),
            pre.stored(r),
            pre.level_at(r) == 4,
            pre.stored(p),
            2 <= pre.level_at(p) <= 4,
            0 <= k < 512,
            pre.table_at(p)[k] == 0,
            !pre.stored(c as int),
            forall|f: int|
                f != p && f != c as int ==> #[trigger] Mapper::unchanged_frame(pre, post, f),
            post.stored(p) && post.level_at(p) == pre.level_at(p),
            post.table_at(p) == pre.table_at(p).update(k, pack_entry(c, PRESENT | WRITABLE)),
            0 <= q,
            p4_index_spec(q) != 511,
            pre.has_l1_path_from(r, q),
        ensures
            post.has_l1_path_from(r, q),
            post.l1_frame_from(r, q) == pre.l1_frame_from(r, q),
    {
        let i4 = p4_index_spec(q);
        let i3 = p3_index_spec(q);
        let i2 = p2_index_spec(q);
        crate::entry::lemma_zero_entry();
        assert(pre.entry_ok(r, i4));
        let e4 = pre.table_at(r)[i4];
        assert(entry_present(e4) && !entry_huge(e4));
        assert(!(r == p && i4 == k));
        assert(r != c as int);
        if r != p {
            assert(Mapper::unchanged_frame(pre, post, r));
        }
        assert(post.table_at(r)[i4] == e4);
        let f3 = entry_frame(e4) as int;
        assert(pre.level_at(f3) == 3 && pre.stored(f3));
        assert(f3 != c as int);
        assert(pre.entry_ok(f3, i3));
        let e3 = pre.table_at(f3)[i3];
        assert(entry_present(e3) && !entry_huge(e3));
        assert(!(f3 == p && i3 == k));
        if f3 != p {
            assert(Mapper::unchanged_frame(pre, post, f3));
        }
        assert(post.table_at(f3)[i3] == e3);
        let f2 = entry_frame(e3) as int;
        assert(pre.level_at(f2) == 2 && pre.stored(f2));
        assert(f2 != c as int);
        assert(pre.entry_ok(f2, i2));
        let e2 = pre.table_at(f2)[i2];
        assert(entry_present(e2) && !entry_huge(e2));
        assert(!(f2 == p && i2 == k));
        if f2 != p {
            assert(Mapper::unchanged_frame(pre, post, f2));
        }
        assert(post.table_at(f2)[i2] == e2);
    }

    /// A page mapped through a level-1 path keeps that path when only a
    /// level-1 table changes: the path reads tables of level 2 and above.
    proof fn lemma_path_persists_l1change(pre: Mapper, post: Mapper, r: int, cf: int, q: int)
        requires
            pre.inv(),
            pre.stored(r),
            pre.level_at(r) == 4,
            pre.level_at(cf) == 1,
            forall|f: int| f != cf ==> #[trigger] Mapper::unchanged_frame(pre, post, f),
            0 <= q,
            p4_index_spec(q) != 511,
            pre.has_l1_path_from(r, q),
        ensures
            post.has_l1_path_from(r, q),
            post.l1_frame_from(r, q) == pre.l1_frame_from(r, q),
    {
        let j4 = p4_index_spec(q);
        let j3 = p3_index_spec(q);
        let j2 = p2_index_spec(q);
        assert(pre.entry_ok(r, j4));
        let g3 = entry_frame(pre.table_at(r)[j4]) as int;
        assert(r != cf);
        assert(Mapper::unchanged_frame(pre, post, r));
        assert(pre.level_at(g3) == 3);
        assert(g3 != cf);
        assert(Mapper::unchanged_frame(pre, post, g3));
        assert(pre.entry_ok(g3, j3));
        let g2 = entry_frame(pre.table_at(g3)[j3]) as int;
        assert(pre.level_at(g2) == 2);
        assert(g2 != cf);
        assert(Mapper::unchanged_frame(pre, post, g2));
    }

    /// Chains the per-stage preservation facts of a `map_to` run (three
    /// table creations followed by the final level-1 write) into whole-run
    /// preservation for every other hierarchy root, and path persistence
    /// for pages already mapped.
    proof fn lemma_map_to_summary(
        s0: Mapper,
        s1: Mapper,
        s2: Mapper,
        s3: Mapper,
        post: Mapper,
        rt: int,
        p3f: u64,
        p2f: u64,
        p1f: u64,
        pn: int,
    )
        requires
            s0.inv(),
            s3.inv(),
            rt == s0.root(),
            s1.root() == rt,
            s2.root() == rt,
            s3.root() == rt,
            post.root() == rt,
            0 <= pn,
            p4_index_spec(pn) != 511,
            // stage facts, as `next_table_create` and `write_entry` ensure
            forall|rr: int, n: int|
                #![trigger s1.has_l1_path_from(rr, n)]
                #![trigger s1.resolve_from(rr, n)]
                #![trigger s1.l1_frame_from(rr, n)]
                s0.stored(rr) && s0.level_at(rr) == 4 && rr != rt && 0 <= n && p4_index_spec(n)
                    != 511 ==> s1.has_l1_path_from(rr, n) == s0.has_l1_path_from(rr, n)
                    && (s0.has_l1_path_from(rr, n) ==> s1.l1_frame_from(rr, n) == s0.l1_frame_from(
                    rr,
                    n,
                )) && s1.resolve_from(rr, n) == s0.resolve_from(rr, n) && s1.mappable_from(rr, n)
                    == s0.mappable_from(rr, n),
            forall|rr: int, n: int|
                #![trigger s2.has_l1_path_from(rr, n)]
                #![trigger s2.resolve_from(rr, n)]
                #![trigger s2.l1_frame_from(rr, n)]
                s1.stored(rr) && s1.level_at(rr) == 4 && rr != rt && 0 <= n && p4_index_spec(n)
                    != 511 ==> s2.has_l1_path_from(rr, n) == s1.has_l1_path_from(rr, n)
                    && (s1.has_l1_path_from(rr, n) ==> s2.l1_frame_from(rr, n) == s1.l1_frame_from(
                    rr,
                    n,
                )) && s2.resolve_from(rr, n) == s1.resolve_from(rr, n) && s2.mappable_from(rr, n)
                    == s1.mappable_from(rr, n),
            forall|rr: int, n: int|
                #![trigger s3.has_l1_path_from(rr, n)]
                #![trigger s3.resolve_from(rr, n)]
                #![trigger s3.l1_frame_from(rr, n)]
                s2.stored(rr) && s2.level_at(rr) == 4 && rr != rt && 0 <= n && p4_index_spec(n)
                    != 511 ==> s3.has_l1_path_from(rr, n) == s2.has_l1_path_from(rr, n)
                    && (s2.has_l1_path_from(rr, n) ==> s3.l1_frame_from(rr, n) == s2.l1_frame_from(
                    rr,
                    n,
                )) && s3.resolve_from(rr, n) == s2.resolve_from(rr, n) && s3.mappable_from(rr, n)
                    == s2.mappable_from(rr, n),
            forall|f: int|
                s0.stored(f) ==> (#[trigger] s1.stored(f)) && s1.level_at(f) == s0.level_at(f),
            forall|f: int|
                s1.stored(f) ==> (#[trigger] s2.stored(f)) && s2.level_at(f) == s1.level_at(f),
            forall|f: int|
                s2.stored(f) ==> (#[trigger] s3.stored(f)) && s3.level_at(f) == s2.level_at(f),
            s3.stored(p1f as int),
            s3.level_at(p1f as int) == 1,
            s3.on_walk_path(rt, p1f as int),
            forall|f: int| f != p1f as int ==> #[trigger] Mapper::unchanged_frame(s3, post, f),
            post.stored(p1f as int),
            post.level_at(p1f as int) == 1,
            // paths already present persisted through the three creations
            forall|q: int|
                0 <= q && p4_index_spec(q) != 511 && s0.has_l1_path_from(rt, q)
                    ==> #[trigger] s3.has_l1_path_from(rt, q) && s3.l1_frame_from(rt, q)
                    == s0.l1_frame_from(rt, q),
        ensures
            forall|rr: int, n: int|
                s0.stored(rr) && s0.level_at(rr) == 4 && rr != rt && 0 <= n && p4_index_spec(n)
                    != 511 ==> #[trigger] post.has_l1_path_from(rr, n) == s0.has_l1_path_from(
                    rr,
                    n,
                ),
            forall|rr: int, n: int|
                s0.stored(rr) && s0.level_at(rr) == 4 && rr != rt && 0 <= n && p4_index_spec(n)
                    != 511 && s0.has_l1_path_from(rr, n) ==> #[trigger] post.l1_frame_from(rr, n)
                    == s0.l1_frame_from(rr, n),
            forall|rr: int, n: int|
                s0.stored(rr) && s0.level_at(rr) == 4 && rr != rt && 0 <= n && p4_index_spec(n)
                    != 511 ==> #[trigger] post.resolve_from(rr, n) == s0.resolve_from(rr, n)
                    && post.mappable_from(rr, n) == s0.mappable_from(rr, n),
            forall|q: int|
                0 <= q && p4_index_spec(q) != 511 && s0.has_l1_path_from(rt, q)
                    ==> #[trigger] post.has_l1_path_from(rt, q) && post.l1_frame_from(rt, q)
                    == s0.l1_frame_from(rt, q),
    {
        assert forall|rr: int, n: int|
            s0.stored(rr) && s0.level_at(rr) == 4 && rr != rt && 0 <= n && p4_index_spec(n)
                != 511 implies #[trigger] post.has_l1_path_from(rr, n) == s0.has_l1_path_from(
            rr,
            n,
        ) by {
            assert(s1.stored(rr) && s1.level_at(rr) == 4);
            assert(s2.stored(rr) && s2.level_at(rr) == 4);
            assert(s3.stored(rr) && s3.level_at(rr) == 4);
            assert(s1.has_l1_path_from(rr, n) == s0.has_l1_path_from(rr, n));
            assert(s2.has_l1_path_from(rr, n) == s1.has_l1_path_from(rr, n));
            assert(s3.has_l1_path_from(rr, n) == s2.has_l1_path_from(rr, n));
            Mapper::lemma_other_root_preserved(s3, post, rr, p1f as int, n);
        };
        assert forall|rr: int, n: int|
            s0.stored(rr) && s0.level_at(rr) == 4 && rr != rt && 0 <= n && p4_index_spec(n) != 511
                && s0.has_l1_path_from(rr, n) implies #[trigger] post.l1_frame_from(rr, n)
            == s0.l1_frame_from(rr, n) by {
            assert(s1.stored(rr) && s1.level_at(rr) == 4);
            assert(s2.stored(rr) && s2.level_at(rr) == 4);
            assert(s3.stored(rr) && s3.level_at(rr) == 4);
            assert(s1.has_l1_path_from(rr, n) == s0.has_l1_path_from(rr, n));
            assert(s2.has_l1_path_from(rr, n) == s1.has_l1_path_from(rr, n));
            assert(s3.has_l1_path_from(rr, n) == s2.has_l1_path_from(rr, n));
            assert(s1.l1_frame_from(rr, n) == s0.l1_frame_from(rr, n));
            assert(s2.l1_frame_from(rr, n) == s1.l1_frame_from(rr, n));
            assert(s3.l1_frame_from(rr, n) == s2.l1_frame_from(rr, n));
            Mapper::lemma_other_root_preserved(s3, post, rr, p1f as int, n);
        };
        assert forall|rr: int, n: int|
            s0.stored(rr) && s0.level_at(rr) == 4 && rr != rt && 0 <= n && p4_index_spec(n)
                != 511 implies #[trigger] post.resolve_from(rr, n) == s0.resolve_from(rr, n)
            && post.mappable_from(rr, n) == s0.mappable_from(rr, n) by {
            assert(s1.stored(rr) && s1.level_at(rr) == 4);
            assert(s2.stored(rr) && s2.level_at(rr) == 4);
            assert(s3.stored(rr) && s3.level_at(rr) == 4);
            assert(s1.resolve_from(rr, n) == s0.resolve_from(rr, n) && s1.mappable_from(rr, n)
                == s0.mappable_from(rr, n));
            assert(s2.resolve_from(rr, n) == s1.resolve_from(rr, n) && s2.mappable_from(rr, n)
                == s1.mappable_from(rr, n));
            assert(s3.resolve_from(rr, n) == s2.resolve_from(rr, n) && s3.mappable_from(rr, n)
                == s2.mappable_from(rr, n));
            Mapper::lemma_other_root_preserved(s3, post, rr, p1f as int, n);
        };
        assert forall|q: int|
            0 <= q && p4_index_spec(q) != 511 && s0.has_l1_path_from(
                rt,
                q,
            ) implies #[trigger] post.has_l1_path_from(rt, q) && post.l1_frame_from(rt, q)
            == s0.l1_frame_from(rt, q) by {
            assert(s1.stored(rt) && s1.level_at(rt) == 4);
            assert(s2.stored(rt) && s2.level_at(rt) == 4);
            assert(s3.stored(rt) && s3.level_at(rt) == 4);
            Mapper::lemma_path_persists_l1change(s3, post, rt, p1f as int, q);
        };
    }

    /// Chains push-then-link preservation for `next_table_create`: walks
    /// are preserved from every root outside the self-map slot, and other
    /// hierarchies keep their paths entirely.
    proof fn lemma_create_summary(pre: Mapper, mid: Mapper, post: Mapper, pa: int, k: int, c: u64)
        requires
            pre.inv(),
            mid.inv(),
            !pre.stored(c as int),
            mid.root() == pre.root(),
            post.root() == pre.root(),
            post.distinct(),
            forall|i: int|
                0 <= i < post.slots@.len() ==> Mapper::slot_basic_wf(#[trigger] post.slots@[i]),
            forall|f: int| f != c as int ==> #[trigger] Mapper::unchanged_frame(pre, mid, f),
            pre.stored(pa),
            pre.on_walk_path(pre.root(), pa),
            mid.stored(pa),
            2 <= mid.level_at(pa) <= 4,
            mid.level_at(pa) == 4 ==> k != 511,
            0 <= k < 512,
            mid.table_at(pa)[k] == 0,
            mid.stored(c as int),
            mid.level_at(c as int) == mid.level_at(pa) - 1,
            forall|j: int| 0 <= j < 512 ==> mid.table_at(c as int)[j] == 0,
            forall|g: int, j: int|
                mid.stored(g) && mid.level_at(g) >= 2 && 0 <= j < 512 ==> #[trigger] mid.child_at(
                    g,
                    j,
                ) != Some(c as int),
            forall|f: int| f != pa ==> #[trigger] Mapper::unchanged_frame(mid, post, f),
            post.stored(pa) && post.level_at(pa) == mid.level_at(pa),
            post.table_at(pa) == mid.table_at(pa).update(k, pack_entry(c, PRESENT | WRITABLE)),
        ensures
            post.inv(),
            post.frames() =~= pre.frames().insert(c as int),
            forall|f: int|
                f != pa && f != c as int ==> #[trigger] Mapper::unchanged_frame(pre, post, f),
            forall|rr: int, n: int|
                pre.stored(rr) && pre.level_at(rr) == 4 && page_valid(n) && p4_index_spec(n) != 511
                    ==> #[trigger] post.resolve_from(rr, n) == pre.resolve_from(rr, n)
                    && post.mappable_from(rr, n) == pre.mappable_from(rr, n),
            forall|rr: int, n: int|
                pre.stored(rr) && pre.level_at(rr) == 4 && rr != pre.root() && 0 <= n
                    && p4_index_spec(n) != 511 ==> #[trigger] post.has_l1_path_from(rr, n)
                    == pre.has_l1_path_from(rr, n),
            forall|rr: int, n: int|
                pre.stored(rr) && pre.level_at(rr) == 4 && rr != pre.root() && 0 <= n
                    && p4_index_spec(n) != 511 && pre.has_l1_path_from(rr, n)
                    ==> #[trigger] post.l1_frame_from(rr, n) == pre.l1_frame_from(rr, n),
            forall|rr: int, n: int|
                pre.stored(rr) && pre.level_at(rr) == 4 && rr != pre.root() && 0 <= n
                    && p4_index_spec(n) != 511 ==> #[trigger] post.resolve_from(rr, n)
                    == pre.resolve_from(rr, n) && post.mappable_from(rr, n) == pre.mappable_from(
                    rr,
                    n,
                ),
    {
        let ci = c as int;
        crate::entry::lemma_present_writable_flags();
        crate::entry::lemma_entry_round_trip(c, PRESENT | WRITABLE);
        crate::entry::lemma_zero_entry();
        assert forall|f: int| f != pa && f != ci implies #[trigger] Mapper::unchanged_frame(
            pre,
            post,
            f,
        ) by {
            assert(Mapper::unchanged_frame(pre, mid, f));
            assert(Mapper::unchanged_frame(mid, post, f));
        };
        assert(post.frames() =~= pre.frames().insert(ci)) by {
            assert forall|g: int| post.frames().contains(g) == pre.frames().insert(ci).contains(
                g,
            ) by {
                if g != ci {
                    if g != pa {
                        assert(Mapper::unchanged_frame(pre, mid, g));
                        assert(Mapper::unchanged_frame(mid, post, g));
                    } else {
                        assert(Mapper::unchanged_frame(mid, post, ci));
                    }
                } else {
                    assert(Mapper::unchanged_frame(mid, post, ci));
                }
            };
        };
            // Establish the invariant of the final store.
            assert(Mapper::unchanged_frame(mid, post, ci));
            assert forall|f: int, kk: int| post.stored(f) && 0 <= kk < 512 implies #[trigger] post.entry_ok(
                f,
                kk,
            ) by {
                if f == ci {
                    assert(post.table_at(f)[kk] == 0);
                } else if f == pa && kk == k {
                    assert(post.table_at(pa)[kk] == pack_entry(c, PRESENT | WRITABLE));
                    assert(post.stored(ci) && post.level_at(ci) == mid.level_at(pa) - 1);
                } else {
                    if f != pa {
                        assert(Mapper::unchanged_frame(mid, post, f));
                    }
                    assert(post.table_at(f)[kk] == mid.table_at(f)[kk]);
                    assert(mid.entry_ok(f, kk));
                    let t = entry_frame(mid.table_at(f)[kk]) as int;
                    if t != pa && t != ci {
                        assert(Mapper::unchanged_frame(mid, post, t));
                    }
                }
            };
            assert forall|f: int, kk: int, g: int, l: int|
                {
                    (post.stored(f) && post.stored(g) && 0 <= kk < 512 && 0 <= l < 512
                        && post.level_at(f) >= 2 && post.level_at(g) >= 2 && (
                    #[trigger] post.child_at(f, kk)) is Some && (#[trigger] post.child_at(
                        g,
                        l,
                    )) is Some && post.child_at(f, kk) == post.child_at(g, l) && post.level_at(
                        post.child_at(f, kk)->0,
                    ) <= 3)
                } implies (f == g && kk == l) by {
                let d = post.child_at(f, kk)->0;
                assert(post.child_at(ci, kk) is None);
                assert(post.child_at(ci, l) is None);
                assert(f != ci && g != ci);
                let fk_new = f == pa && kk == k;
                let gl_new = g == pa && l == k;
                if fk_new && gl_new {
                } else if fk_new || gl_new {
                    // Exactly one of the two entries is the fresh pointer,
                    // so the other points at the fresh frame from before,
                    // which is impossible.
                    if fk_new {
                        assert(d == ci);
                        if g != pa {
                            assert(Mapper::unchanged_frame(mid, post, g));
                        }
                        assert(mid.child_at(g, l) == post.child_at(g, l));
                        assert(mid.child_at(g, l) != Some(ci));
                        assert(false);
                    } else {
                        assert(d == ci);
                        if f != pa {
                            assert(Mapper::unchanged_frame(mid, post, f));
                        }
                        assert(mid.child_at(f, kk) == post.child_at(f, kk));
                        assert(mid.child_at(f, kk) != Some(ci));
                        assert(false);
                    }
                } else {
                    if f != pa {
                        assert(Mapper::unchanged_frame(mid, post, f));
                    }
                    if g != pa {
                        assert(Mapper::unchanged_frame(mid, post, g));
                    }
                    assert(mid.child_at(f, kk) == post.child_at(f, kk));
                    assert(mid.child_at(g, l) == post.child_at(g, l));
                    if d == ci {
                        assert(mid.child_at(f, kk) != Some(ci));
                        assert(false);
                    }
                    if d == pa {
                        assert(mid.level_at(d) == post.level_at(d));
                    } else {
                        assert(Mapper::unchanged_frame(mid, post, d));
                    }
                }
            };
            assert(post.stored(post.root()) && post.level_at(post.root()) == 4) by {
                if post.root() != pa && post.root() != ci {
                    assert(Mapper::unchanged_frame(mid, post, post.root()));
                }
                assert(Mapper::unchanged_frame(pre, mid, pre.root()));
            };
            assert(post.inv());
        assert forall|rr: int, n: int|
            pre.stored(rr) && pre.level_at(rr) == 4 && page_valid(n) && p4_index_spec(n)
                != 511 implies #[trigger] post.resolve_from(rr, n) == pre.resolve_from(rr, n)
            && post.mappable_from(rr, n) == pre.mappable_from(rr, n) by {
            Mapper::lemma_walk_preserved_at(pre, mid, rr, ci, n);
            assert(Mapper::unchanged_frame(pre, mid, rr));
            Mapper::lemma_walk_preserved_create_at(mid, post, rr, pa, k, c, n);
        };
        assert forall|rr: int, n: int|
            pre.stored(rr) && pre.level_at(rr) == 4 && rr != pre.root() && 0 <= n
                && p4_index_spec(n) != 511 implies #[trigger] post.has_l1_path_from(rr, n)
            == pre.has_l1_path_from(rr, n) by {
            Mapper::lemma_walk_preserved_at(pre, mid, rr, ci, n);
            assert(Mapper::unchanged_frame(pre, mid, rr));
            Mapper::lemma_on_walk_path_transfer(pre, mid, pre.root(), pa);
            Mapper::lemma_other_root_preserved(mid, post, rr, pa, n);
        };
        assert forall|rr: int, n: int|
            pre.stored(rr) && pre.level_at(rr) == 4 && rr != pre.root() && 0 <= n
                && p4_index_spec(n) != 511 && pre.has_l1_path_from(rr, n) implies #[trigger] post.l1_frame_from(
            rr,
            n,
        ) == pre.l1_frame_from(rr, n) by {
            Mapper::lemma_walk_preserved_at(pre, mid, rr, ci, n);
            assert(Mapper::unchanged_frame(pre, mid, rr));
            Mapper::lemma_on_walk_path_transfer(pre, mid, pre.root(), pa);
            Mapper::lemma_other_root_preserved(mid, post, rr, pa, n);
        };
        assert forall|rr: int, n: int|
            pre.stored(rr) && pre.level_at(rr) == 4 && rr != pre.root() && 0 <= n
                && p4_index_spec(n) != 511 implies #[trigger] post.resolve_from(rr, n)
            == pre.resolve_from(rr, n) && post.mappable_from(rr, n) == pre.mappable_from(
            rr,
            n,
        ) by {
            Mapper::lemma_walk_preserved_at(pre, mid, rr, ci, n);
            assert(Mapper::unchanged_frame(pre, mid, rr));
            Mapper::lemma_on_walk_path_transfer(pre, mid, pre.root(), pa);
            Mapper::lemma_other_root_preserved(mid, post, rr, pa, n);
        };
    }

    /// A freshly pushed, zeroed table keeps the store invariant, and no
    /// table of level 2 or above points at it.
    proof fn lemma_push_fresh_inv(pre: Mapper, mid: Mapper, c: u64)
        requires
            pre.inv(),
            !pre.stored(c as int),
            mid.root() == pre.root(),
            mid.distinct(),
            forall|i: int|
                0 <= i < mid.slots@.len() ==> Mapper::slot_basic_wf(#[trigger] mid.slots@[i]),
            forall|f: int| f != c as int ==> #[trigger] Mapper::unchanged_frame(pre, mid, f),
            mid.stored(c as int),
            1 <= mid.level_at(c as int) <= 3,
            forall|j: int| 0 <= j < 512 ==> mid.table_at(c as int)[j] == 0,
        ensures
            mid.inv(),
            forall|g: int, j: int|
                mid.stored(g) && mid.level_at(g) >= 2 && 0 <= j < 512 ==> #[trigger] mid.child_at(
                    g,
                    j,
                ) != Some(c as int),
    {
        crate::entry::lemma_zero_entry();
        assert forall|f: int, k: int| mid.stored(f) && 0 <= k < 512 implies #[trigger] mid.entry_ok(
            f,
            k,
        ) by {
            if f == c as int {
                assert(mid.table_at(f)[k] == 0);
            } else {
                assert(Mapper::unchanged_frame(pre, mid, f));
                assert(pre.entry_ok(f, k));
                let t = entry_frame(pre.table_at(f)[k]) as int;
                if t != c as int {
                    assert(Mapper::unchanged_frame(pre, mid, t));
                }
            }
        };
        assert forall|f: int, k: int, g: int, l: int|
            {
                (mid.stored(f) && mid.stored(g) && 0 <= k < 512 && 0 <= l < 512 && mid.level_at(
                    f,
                ) >= 2 && mid.level_at(g) >= 2 && (#[trigger] mid.child_at(f, k)) is Some && (
                #[trigger] mid.child_at(g, l)) is Some && mid.child_at(f, k) == mid.child_at(
                    g,
                    l,
                ) && mid.level_at(mid.child_at(f, k)->0) <= 3)
            } implies (f == g && k == l) by {
            assert(mid.child_at(c as int, k) is None);
            assert(mid.child_at(c as int, l) is None);
            assert(f != c as int && g != c as int);
            assert(Mapper::unchanged_frame(pre, mid, f));
            assert(Mapper::unchanged_frame(pre, mid, g));
            let d = mid.child_at(f, k)->0;
            if d == c as int {
                assert(pre.entry_ok(f, k));
                assert(false);
            }
            assert(Mapper::unchanged_frame(pre, mid, d));
            assert(pre.child_at(f, k) == mid.child_at(f, k));
            assert(pre.child_at(g, l) == mid.child_at(g, l));
        };
        assert(Mapper::unchanged_frame(pre, mid, pre.root()));
        assert forall|g: int, j: int|
            mid.stored(g) && mid.level_at(g) >= 2 && 0 <= j < 512 implies #[trigger] mid.child_at(
                g,
                j,
            ) != Some(c as int) by {
            if g == c as int {
                assert(mid.child_at(g, j) is None);
            } else {
                assert(Mapper::unchanged_frame(pre, mid, g));
                if mid.child_at(g, j) == Some(c as int) {
                    assert(pre.entry_ok(g, j));
                    assert(false);
                }
            }
        };
    }

    /// Rewriting one slot of a level-1 table to zero or to a present entry
    /// keeps the store invariant: level-1 entries carry no structural
    /// obligations.
    proof fn lemma_l1_write_inv(pre: Mapper, post: Mapper, cf: int, k: int, v: u64)
        requires
            pre.inv(),
            pre.stored(cf),
            pre.level_at(cf) == 1,
            0 <= k < 512,
            forall|f: int| f != cf ==> #[trigger] Mapper::unchanged_frame(pre, post, f),
            post.stored(cf),
            post.level_at(cf) == 1,
            post.table_at(cf) == pre.table_at(cf).update(k, v),
            v == 0 || entry_present(v),
            post.root() == pre.root(),
            post.distinct(),
            forall|i: int|
                0 <= i < post.slots@.len() ==> Mapper::slot_basic_wf(#[trigger] post.slots@[i]),
        ensures
            post.inv(),
    {
        assert forall|f: int, kk: int| post.stored(f) && 0 <= kk < 512 implies #[trigger] post.entry_ok(
            f,
            kk,
        ) by {
            if f == cf && kk == k {
                assert(post.table_at(f)[kk] == v);
            } else {
                if f != cf {
                    assert(Mapper::unchanged_frame(pre, post, f));
                }
                assert(post.table_at(f)[kk] == pre.table_at(f)[kk]);
                assert(pre.entry_ok(f, kk));
                let t = entry_frame(pre.table_at(f)[kk]) as int;
                if t != cf {
                    assert(Mapper::unchanged_frame(pre, post, t));
                }
            }
        };
        assert forall|f: int, kk: int, g: int, l: int|
            {
                (post.stored(f) && post.stored(g) && 0 <= kk < 512 && 0 <= l < 512
                    && post.level_at(f) >= 2 && post.level_at(g) >= 2 && (#[trigger] post.child_at(
                    f,
                    kk,
                )) is Some && (#[trigger] post.child_at(g, l)) is Some && post.child_at(f, kk)
                    == post.child_at(g, l) && post.level_at(post.child_at(f, kk)->0) <= 3)
            } implies (f == g && kk == l) by {
            assert(f != cf && g != cf);
            assert(Mapper::unchanged_frame(pre, post, f));
            assert(Mapper::unchanged_frame(pre, post, g));
            assert(pre.child_at(f, kk) == post.child_at(f, kk));
            assert(pre.child_at(g, l) == post.child_at(g, l));
            let d = post.child_at(f, kk)->0;
            if d == cf {
                assert(pre.level_at(d) == post.level_at(d));
            } else {
                assert(Mapper::unchanged_frame(pre, post, d));
            }
        };
        assert(Mapper::unchanged_frame(pre, post, pre.root()));
    }

    /// Rewriting one slot of a level-1 table leaves the translation and
    /// mappability of every page other than those reaching that very slot
    /// unchanged; in the same hierarchy, only the single page addressing
    /// the slot can differ.
    proof fn lemma_l1_write_preserve(pre: Mapper, post: Mapper, rt: int, cf: int, pn: int)
        requires
            pre.inv(),
            pre.stored(rt),
            pre.level_at(rt) == 4,
            rt == pre.root(),
            pre.stored(cf),
            pre.level_at(cf) == 1,
            forall|f: int| f != cf ==> #[trigger] Mapper::unchanged_frame(pre, post, f),
            post.stored(cf),
            post.table_at(cf).len() == pre.table_at(cf).len(),
            forall|j: int|
                0 <= j < 512 && j != p1_index_spec(pn) ==> #[trigger] post.table_at(cf)[j]
                    == pre.table_at(cf)[j],
            0 <= pn,
            page_valid(pn),
            p4_index_spec(pn) != 511,
            pre.has_l1_path_from(rt, pn),
            pre.l1_frame_from(rt, pn) == cf,
        ensures
            forall|n: int|
                page_valid(n) && p4_index_spec(n) != 511 && n != pn ==> #[trigger] post.resolve_from(
                    rt,
                    n,
                ) == pre.resolve_from(rt, n) && post.mappable_from(rt, n) == pre.mappable_from(
                    rt,
                    n,
                ),
    {
        assert forall|n: int|
            page_valid(n) && p4_index_spec(n) != 511 && n != pn implies #[trigger] post.resolve_from(
                rt,
                n,
            ) == pre.resolve_from(rt, n) && post.mappable_from(rt, n) == pre.mappable_from(
            rt,
            n,
        ) by {
            Mapper::lemma_walk_preserved_at(pre, post, rt, cf, n);
            if pre.has_l1_path_from(rt, n) && pre.l1_frame_from(rt, n) == cf {
                pre.lemma_l1_owner(rt, n, rt, pn);
                if p1_index_spec(n) == p1_index_spec(pn) {
                    crate::paging::lemma_page_from_indices(n, pn);
                    assert(false);
                }
                assert(post.table_at(cf)[p1_index_spec(n)] == pre.table_at(cf)[p1_index_spec(n)]);
                assert(Mapper::unchanged_frame(pre, post, rt));
                assert(post.child_at(rt, p4_index_spec(n)) == pre.child_at(rt, p4_index_spec(n)));
                assert(pre.entry_ok(rt, p4_index_spec(n)));
                let f3 = pre.child_at(rt, p4_index_spec(n))->0;
                assert(pre.level_at(f3) == 3 && f3 != cf);
                assert(Mapper::unchanged_frame(pre, post, f3));
                assert(pre.entry_ok(f3, p3_index_spec(n)));
                let f2 = pre.child_at(f3, p3_index_spec(n))->0;
                assert(pre.level_at(f2) == 2 && f2 != cf);
                assert(Mapper::unchanged_frame(pre, post, f2));
                assert(post.resolve_from(rt, n) == pre.resolve_from(rt, n));
                assert(post.mappable_from(rt, n) == pre.mappable_from(rt, n));
            }
        };
    }

    /// Drop the slot holding frame `frame` from the store.
    fn remove_slot(&mut self, frame: u64)
        requires
            old(self).distinct(),
            old(self).stored(frame as int),
            forall|i: int|
                0 <= i < old(self).slots@.len() ==> Mapper::slot_basic_wf(
                    #[trigger] old(self).slots@[i],
                ),
        ensures
            final(self).distinct(),
            final(self).p4_frame == old(self).p4_frame,
            !final(self).stored(frame as int),
            forall|f: int|
                f != frame as int ==> #[trigger] Mapper::unchanged_frame(*old(self), *final(self), f),
            forall|i: int|
                0 <= i < final(self).slots@.len() ==> Mapper::slot_basic_wf(
                    #[trigger] final(self).slots@[i],
                ),
            final(self).frames() =~= old(self).frames().remove(frame as int),
    {
        match self.find_slot(frame) {
            Some(i) => {
                proof {
                    self.lemma_slot(i as int);
                }
                let _ = self.slots.swap_remove(i);
                proof {
                    let pre = *old(self);
                    let post = *self;
                    let ii = i as int;
                    let len = pre.slots@.len() as int;
                    assert(post.slots@ == pre.slots@.update(ii, pre.slots@.last()).drop_last());
                    assert forall|a: int, b: int|
                        0 <= a < b < post.slots@.len() implies post.slots@[a].frame
                        != post.slots@[b].frame by {
                        let fa = if a == ii { len - 1 } else { a };
                        let fb = if b == ii { len - 1 } else { b };
                        assert(post.slots@[a] == pre.slots@[fa]);
                        assert(post.slots@[b] == pre.slots@[fb]);
                    };
                    assert forall|f: int| f != frame as int implies #[trigger] Mapper::unchanged_frame(
                        pre,
                        post,
                        f,
                    ) by {
                        if pre.stored(f) {
                            let a = pre.slot_index(f);
                            pre.lemma_slot(a);
                            assert(a != ii);
                            if a == len - 1 {
                                if ii < len - 1 {
                                    assert(post.slots@[ii] == pre.slots@[a]);
                                    post.lemma_slot(ii);
                                }
                            } else {
                                assert(post.slots@[a] == pre.slots@[a]);
                                post.lemma_slot(a);
                            }
                        } else {
                            if post.stored(f) {
                                let a = post.slot_index(f);
                                let fa = if a == ii { len - 1 } else { a };
                                assert(post.slots@[a] == pre.slots@[fa]);
                                assert(false);
                            }
                        }
                    };
                    assert(!post.stored(frame as int)) by {
                        if post.stored(frame as int) {
                            let a = post.slot_index(frame as int);
                            assert(0 <= a < post.slots@.len() && post.slots@[a].frame == frame);
                            let fa = if a == ii { len - 1 } else { a };
                            assert(post.slots@[a] == pre.slots@[fa]);
                            assert(pre.slots@[fa].frame == frame);
                            pre.lemma_slot(fa);
                            assert(fa == ii);
                            assert(false);
                        }
                    };
                    assert forall|g: int| post.frames().contains(g) == pre.frames().remove(
                        frame as int,
                    ).contains(g) by {
                        if g != frame as int {
                            assert(Mapper::unchanged_frame(pre, post, g));
                        }
                    };
                    assert(post.frames() =~= pre.frames().remove(frame as int));
                }
            },
            None => vstd::pervasive::unreached(),
        }
    }

    /// Whether every entry of the table kept in `frame` is zero.
    fn table_is_empty(&self, frame: u64) -> (r: bool)
        requires
            self.distinct(),
            self.stored(frame as int),
            forall|i: int|
                0 <= i < self.slots@.len() ==> Mapper::slot_basic_wf(#[trigger] self.slots@[i]),
        ensures
            r == forall|j: int| 0 <= j < 512 ==> self.table_at(frame as int)[j] == 0,
    {
        let mut j: usize = 0;
        while j < 512
            invariant
                self.distinct(),
                self.stored(frame as int),
                forall|i: int|
                    0 <= i < self.slots@.len() ==> Mapper::slot_basic_wf(#[trigger] self.slots@[i]),
                0 <= j <= 512,
                forall|k: int| 0 <= k < j ==> self.table_at(frame as int)[k] == 0,
            decreases 512 - j,
        {
            let e = self.read_entry(frame, j);
            if e != 0 {
                return false;
            }
            j = j + 1;
        }
        true
    }

    /// Walks survive freeing an empty table: any page routed through the
    /// freed table resolved to nothing before (all its entries were zero)
    /// and resolves to nothing after (the parent entry is now unused), and
    /// stays mappable either way.
    proof fn lemma_walk_preserved_prune_at(
        pre: Mapper,
        post: Mapper,
        r: int,
        p: int,
        k: int,
        c: int,
        n: int,
    )
        requires
            pre.inv(),
            pre.stored(r),
            pre.level_at(r) == 4,
            pre.stored(p),
            2 <= pre.level_at(p) <= 4,
            pre.level_at(p) == 4 ==> k != 511,
            0 <= k < 512,
            pre.child_at(p, k) == Some(c),
            forall|j: int| 0 <= j < 512 ==> pre.table_at(c)[j] == 0,
            forall|f: int| f != p ==> #[trigger] Mapper::unchanged_frame(pre, post, f),
            post.stored(p) && post.level_at(p) == pre.level_at(p),
            post.table_at(p) == pre.table_at(p).update(k, 0),
            page_valid(n),
            p4_index_spec(n) != 511,
        ensures
            post.resolve_from(r, n) == pre.resolve_from(r, n),
            post.mappable_from(r, n) == pre.mappable_from(r, n),
    {
        let i4 = p4_index_spec(n);
        let i3 = p3_index_spec(n);
        let i2 = p2_index_spec(n);
        crate::entry::lemma_zero_entry();
        assert(pre.entry_ok(p, k));
        assert(pre.stored(c) && pre.level_at(c) == pre.level_at(p) - 1);
        assert(c != p);
        assert(Mapper::unchanged_frame(pre, post, c));
        if r == p && i4 == k {
            assert(pre.child_at(r, i4) == Some(c));
            assert(pre.table_at(c)[i3] == 0);
            assert(pre.resolve_from(r, n) is None);
            assert(pre.mappable_from(r, n));
            assert(post.resolve_from(r, n) is None);
            assert(post.mappable_from(r, n));
        } else {
            if r != p {
                assert(Mapper::unchanged_frame(pre, post, r));
            }
            assert(post.table_at(r)[i4] == pre.table_at(r)[i4]);
            assert(pre.entry_ok(r, i4));
            let e4 = pre.table_at(r)[i4];
            if entry_present(e4) && !entry_huge(e4) {
                let f3 = entry_frame(e4) as int;
                assert(pre.child_at(r, i4) == Some(f3));
                assert(pre.level_at(f3) == 3);
                if f3 == p && i3 == k {
                    assert(pre.child_at(f3, i3) == Some(c));
                    assert(pre.table_at(c)[i2] == 0);
                    assert(pre.resolve_from(r, n) is None);
                    assert(pre.mappable_from(r, n));
                    assert(post.resolve_from(r, n) is None);
                    assert(post.mappable_from(r, n));
                } else {
                    if f3 != p {
                        assert(Mapper::unchanged_frame(pre, post, f3));
                    }
                    assert(post.table_at(f3)[i3] == pre.table_at(f3)[i3]);
                    assert(pre.entry_ok(f3, i3));
                    let e3 = pre.table_at(f3)[i3];
                    if entry_present(e3) && !entry_huge(e3) {
                        let f2 = entry_frame(e3) as int;
                        assert(pre.child_at(f3, i3) == Some(f2));
                        assert(pre.level_at(f2) == 2);
                        if f2 == p && i2 == k {
                            assert(pre.child_at(f2, i2) == Some(c));
                            assert(pre.table_at(c)[p1_index_spec(n)] == 0);
                            assert(pre.resolve_from(r, n) is None);
                            assert(pre.mappable_from(r, n));
                            assert(post.resolve_from(r, n) is None);
                            assert(post.mappable_from(r, n));
                        } else {
                            if f2 != p {
                                assert(Mapper::unchanged_frame(pre, post, f2));
                            }
                            assert(post.table_at(f2)[i2] == pre.table_at(f2)[i2]);
                            assert(pre.entry_ok(f2, i2));
                            let e2 = pre.table_at(f2)[i2];
                            if entry_present(e2) && !entry_huge(e2) {
                                let f1 = entry_frame(e2) as int;
                                assert(pre.child_at(f2, i2) == Some(f1));
                                assert(pre.level_at(f1) == 1);
                                assert(f1 != p);
                                assert(Mapper::unchanged_frame(pre, post, f1));
                            }
                        }
                    }
                }
            }
        }
    }

    /// One page's level-1 entry survives a full `map_to` run for another
    /// page: the three creations never modify level-1 tables, and the
    /// final write lands in a different slot.
    proof fn lemma_map_to_entry_at(
        s0: Mapper,
        s1: Mapper,
        s2: Mapper,
        s3: Mapper,
        post: Mapper,
        rt: int,
        p3f: u64,
        p2f: u64,
        p1f: u64,
        pn: int,
        created1: bool,
        created2: bool,
        created3: bool,
        q: int,
    )
        requires
            s0.inv(),
            s3.inv(),
            rt == s0.root(),
            s3.root() == rt,
            post.root() == rt,
            0 <= pn,
            page_valid(pn),
            p4_index_spec(pn) != 511,
            created1 ==> !s0.stored(p3f as int) && (forall|f: int|
                f != rt && f != p3f as int ==> #[trigger] Mapper::unchanged_frame(s0, s1, f)),
            !created1 ==> s1 == s0,
            created2 ==> !s1.stored(p2f as int) && s1.stored(p3f as int) && s1.level_at(
                p3f as int,
            ) == 3 && (forall|f: int|
                f != p3f as int && f != p2f as int ==> #[trigger] Mapper::unchanged_frame(
                    s1,
                    s2,
                    f,
                )),
            !created2 ==> s2 == s1,
            created3 ==> !s2.stored(p1f as int) && s2.stored(p2f as int) && s2.level_at(
                p2f as int,
            ) == 2 && (forall|f: int|
                f != p2f as int && f != p1f as int ==> #[trigger] Mapper::unchanged_frame(
                    s2,
                    s3,
                    f,
                )),
            !created3 ==> s3 == s2,
            forall|f: int| f != p1f as int ==> #[trigger] Mapper::unchanged_frame(s3, post, f),
            post.stored(p1f as int),
            post.table_at(p1f as int).len() == s3.table_at(p1f as int).len(),
            forall|j: int|
                0 <= j < 512 && j != p1_index_spec(pn) ==> #[trigger] post.table_at(
                    p1f as int,
                )[j] == s3.table_at(p1f as int)[j],
            s3.has_l1_path_from(rt, pn),
            s3.l1_frame_from(rt, pn) == p1f as int,
            forall|qq: int|
                0 <= qq && p4_index_spec(qq) != 511 && s0.has_l1_path_from(rt, qq)
                    ==> #[trigger] s3.has_l1_path_from(rt, qq) && s3.l1_frame_from(rt, qq)
                    == s0.l1_frame_from(rt, qq),
            forall|qq: int|
                0 <= qq && p4_index_spec(qq) != 511 && s3.has_l1_path_from(rt, qq)
                    ==> #[trigger] post.has_l1_path_from(rt, qq) && post.l1_frame_from(rt, qq)
                    == s3.l1_frame_from(rt, qq),
            0 <= q,
            page_valid(q),
            p4_index_spec(q) != 511,
            q != pn,
            s0.has_l1_path_from(rt, q),
        ensures
            post.table_at(post.l1_frame_from(rt, q))[p1_index_spec(q)] == s0.table_at(
                s0.l1_frame_from(rt, q),
            )[p1_index_spec(q)],
    {
        let j4 = p4_index_spec(q);
        let j3 = p3_index_spec(q);
        let j2 = p2_index_spec(q);
        assert(s0.entry_ok(rt, j4));
        let g3 = s0.child_at(rt, j4)->0;
        assert(s0.level_at(g3) == 3);
        assert(s0.entry_ok(g3, j3));
        let g2 = s0.child_at(g3, j3)->0;
        assert(s0.level_at(g2) == 2);
        assert(s0.entry_ok(g2, j2));
        let l1 = s0.child_at(g2, j2)->0;
        assert(l1 == s0.l1_frame_from(rt, q));
        assert(s0.stored(l1) && s0.level_at(l1) == 1);
        assert(s1.table_at(l1) == s0.table_at(l1)) by {
            if created1 {
                assert(l1 != rt && l1 != p3f as int);
                assert(Mapper::unchanged_frame(s0, s1, l1));
            }
        };
        assert(s2.table_at(l1) == s1.table_at(l1)) by {
            if created2 {
                assert(s1.stored(l1) && s1.level_at(l1) == 1) by {
                    if created1 {
                        assert(Mapper::unchanged_frame(s0, s1, l1));
                    }
                };
                assert(l1 != p3f as int && l1 != p2f as int);
                assert(Mapper::unchanged_frame(s1, s2, l1));
            }
        };
        assert(s3.table_at(l1) == s2.table_at(l1)) by {
            if created3 {
                assert(s2.stored(l1) && s2.level_at(l1) == 1) by {
                    if created1 {
                        assert(Mapper::unchanged_frame(s0, s1, l1));
                    }
                    if created2 {
                        assert(Mapper::unchanged_frame(s1, s2, l1));
                    }
                };
                assert(l1 != p2f as int && l1 != p1f as int);
                assert(Mapper::unchanged_frame(s2, s3, l1));
            }
        };
        assert(s3.has_l1_path_from(rt, q) && s3.l1_frame_from(rt, q) == l1);
        assert(post.has_l1_path_from(rt, q) && post.l1_frame_from(rt, q) == l1);
        if l1 == p1f as int {
            s3.lemma_l1_owner(rt, q, rt, pn);
            if p1_index_spec(q) == p1_index_spec(pn) {
                crate::paging::lemma_page_from_indices(q, pn);
                assert(false);
            }
            assert(post.table_at(l1)[p1_index_spec(q)] == s3.table_at(l1)[p1_index_spec(q)]);
        } else {
            assert(Mapper::unchanged_frame(s3, post, l1));
        }
    }

    /// Paths that already reached a level-1 table before a `map_to` run
    /// still do afterwards, ending in the same table, and every such page
    /// other than the mapped one keeps its exact level-1 entry.
    proof fn lemma_map_to_paths(
        s0: Mapper,
        s1: Mapper,
        s2: Mapper,
        s3: Mapper,
        post: Mapper,
        rt: int,
        p3f: u64,
        p2f: u64,
        p1f: u64,
        pn: int,
        created1: bool,
        created2: bool,
        created3: bool,
    )
        requires
            s0.inv(),
            s3.inv(),
            rt == s0.root(),
            s3.root() == rt,
            post.root() == rt,
            0 <= pn,
            page_valid(pn),
            p4_index_spec(pn) != 511,
            s0.stored(rt),
            s0.level_at(rt) == 4,
            created1 ==> !s0.stored(p3f as int) && s0.table_at(rt)[p4_index_spec(pn)] == 0
                && s1.stored(rt) && s1.level_at(rt) == 4 && s1.table_at(rt) == s0.table_at(
                rt,
            ).update(p4_index_spec(pn), pack_entry(p3f, PRESENT | WRITABLE)) && (forall|f: int|
                f != rt && f != p3f as int ==> #[trigger] Mapper::unchanged_frame(s0, s1, f)),
            !created1 ==> s1 == s0,
            created2 ==> !s1.stored(p2f as int) && s1.stored(p3f as int) && s1.level_at(
                p3f as int,
            ) == 3 && s1.table_at(p3f as int)[p3_index_spec(pn)] == 0 && s2.stored(p3f as int)
                && s2.level_at(p3f as int) == 3 && s2.table_at(p3f as int) == s1.table_at(
                p3f as int,
            ).update(p3_index_spec(pn), pack_entry(p2f, PRESENT | WRITABLE)) && (forall|f: int|
                f != p3f as int && f != p2f as int ==> #[trigger] Mapper::unchanged_frame(
                    s1,
                    s2,
                    f,
                )),
            !created2 ==> s2 == s1,
            created3 ==> !s2.stored(p1f as int) && s2.stored(p2f as int) && s2.level_at(
                p2f as int,
            ) == 2 && s2.table_at(p2f as int)[p2_index_spec(pn)] == 0 && s3.stored(p2f as int)
                && s3.level_at(p2f as int) == 2 && s3.table_at(p2f as int) == s2.table_at(
                p2f as int,
            ).update(p2_index_spec(pn), pack_entry(p1f, PRESENT | WRITABLE)) && (forall|f: int|
                f != p2f as int && f != p1f as int ==> #[trigger] Mapper::unchanged_frame(
                    s2,
                    s3,
                    f,
                )),
            !created3 ==> s3 == s2,
            s1.inv(),
            s2.inv(),
            s1.stored(rt) && s1.level_at(rt) == 4,
            s2.stored(rt) && s2.level_at(rt) == 4,
            s3.stored(rt) && s3.level_at(rt) == 4,
            forall|f: int| f != p1f as int ==> #[trigger] Mapper::unchanged_frame(s3, post, f),
            post.stored(p1f as int),
            post.level_at(p1f as int) == 1,
            s3.level_at(p1f as int) == 1,
            post.table_at(p1f as int).len() == s3.table_at(p1f as int).len(),
            forall|j: int|
                0 <= j < 512 && j != p1_index_spec(pn) ==> #[trigger] post.table_at(
                    p1f as int,
                )[j] == s3.table_at(p1f as int)[j],
            s3.has_l1_path_from(rt, pn),
            s3.l1_frame_from(rt, pn) == p1f as int,
        ensures
            forall|q: int|
                0 <= q && p4_index_spec(q) != 511 && s0.has_l1_path_from(rt, q)
                    ==> #[trigger] s3.has_l1_path_from(rt, q) && s3.l1_frame_from(rt, q)
                    == s0.l1_frame_from(rt, q),
            forall|q: int|
                0 <= q && p4_index_spec(q) != 511 && s0.has_l1_path_from(rt, q)
                    ==> #[trigger] post.has_l1_path_from(rt, q) && post.l1_frame_from(rt, q)
                    == s0.l1_frame_from(rt, q),
            forall|q: int|
                #![trigger post.table_at(post.l1_frame_from(post.root(), q))]
                #![trigger s0.table_at(s0.l1_frame_from(s0.root(), q))]
                page_valid(q) && p4_index_spec(q) != 511 && q != pn && s0.has_l1_path_from(rt, q)
                    ==> post.table_at(post.l1_frame_from(post.root(), q))[p1_index_spec(q)]
                    == s0.table_at(s0.l1_frame_from(s0.root(), q))[p1_index_spec(q)],
    {
        let i4 = p4_index_spec(pn);
        let i3 = p3_index_spec(pn);
        let i2 = p2_index_spec(pn);
        assert forall|q: int|
            0 <= q && p4_index_spec(q) != 511 && s0.has_l1_path_from(
                rt,
                q,
            ) implies #[trigger] s3.has_l1_path_from(rt, q) && s3.l1_frame_from(rt, q)
            == s0.l1_frame_from(rt, q) by {
            if created1 {
                Mapper::lemma_path_persists_create(s0, s1, rt, rt, i4, p3f, q);
            }
            assert(s1.has_l1_path_from(rt, q) && s1.l1_frame_from(rt, q) == s0.l1_frame_from(
                rt,
                q,
            ));
            if created2 {
                Mapper::lemma_path_persists_create(s1, s2, rt, p3f as int, i3, p2f, q);
            }
            assert(s2.has_l1_path_from(rt, q) && s2.l1_frame_from(rt, q) == s1.l1_frame_from(
                rt,
                q,
            ));
            if created3 {
                Mapper::lemma_path_persists_create(s2, s3, rt, p2f as int, i2, p1f, q);
            }
            assert(s3.has_l1_path_from(rt, q) && s3.l1_frame_from(rt, q) == s2.l1_frame_from(
                rt,
                q,
            ));
        };
        assert forall|q: int|
            0 <= q && p4_index_spec(q) != 511 && s0.has_l1_path_from(
                rt,
                q,
            ) implies #[trigger] post.has_l1_path_from(rt, q) && post.l1_frame_from(rt, q)
            == s0.l1_frame_from(rt, q) by {
            Mapper::lemma_path_persists_l1change(s3, post, rt, p1f as int, q);
        };
        assert forall|qq: int|
            0 <= qq && p4_index_spec(qq) != 511 && s3.has_l1_path_from(
                rt,
                qq,
            ) implies #[trigger] post.has_l1_path_from(rt, qq) && post.l1_frame_from(rt, qq)
            == s3.l1_frame_from(rt, qq) by {
            Mapper::lemma_path_persists_l1change(s3, post, rt, p1f as int, qq);
        };
        assert forall|q: int|
            #![trigger post.table_at(post.l1_frame_from(post.root(), q))]
            #![trigger s0.table_at(s0.l1_frame_from(s0.root(), q))]
            page_valid(q) && p4_index_spec(q) != 511 && q != pn && s0.has_l1_path_from(
                rt,
                q,
            ) implies post.table_at(post.l1_frame_from(post.root(), q))[p1_index_spec(q)]
            == s0.table_at(s0.l1_frame_from(s0.root(), q))[p1_index_spec(q)] by {
            Mapper::lemma_map_to_entry_at(
                s0,
                s1,
                s2,
                s3,
                post,
                rt,
                p3f,
                p2f,
                p1f,
                pn,
                created1,
                created2,
                created3,
                q,
            );
        };
    }

    /// Preservation summary for clearing one level-1 slot: every other page
    /// of this hierarchy, and every page of every other hierarchy, keeps
    /// its translation, its mappability and its walk path.
    proof fn lemma_unmap_summary(s0: Mapper, post: Mapper, rt: int, f1i: int, pn: int)
        requires
            s0.inv(),
            s0.stored(rt),
            s0.level_at(rt) == 4,
            rt == s0.root(),
            post.root() == rt,
            page_valid(pn),
            p4_index_spec(pn) != 511,
            s0.has_l1_path_from(rt, pn),
            s0.l1_frame_from(rt, pn) == f1i,
            s0.level_at(f1i) == 1,
            s0.on_walk_path(rt, f1i),
            forall|f: int| f != f1i ==> #[trigger] Mapper::unchanged_frame(s0, post, f),
            post.stored(f1i),
            post.level_at(f1i) == 1,
            post.table_at(f1i).len() == s0.table_at(f1i).len(),
            forall|j: int|
                0 <= j < 512 && j != p1_index_spec(pn) ==> #[trigger] post.table_at(f1i)[j]
                    == s0.table_at(f1i)[j],
        ensures
            forall|rr: int, n: int|
                s0.stored(rr) && s0.level_at(rr) == 4 && page_valid(n) && p4_index_spec(n) != 511
                    && n != pn ==> #[trigger] post.resolve_from(rr, n) == s0.resolve_from(rr, n)
                    && post.mappable_from(rr, n) == s0.mappable_from(rr, n),
            forall|rr: int, n: int|
                s0.stored(rr) && s0.level_at(rr) == 4 && rr != rt && 0 <= n && p4_index_spec(n)
                    != 511 ==> #[trigger] post.has_l1_path_from(rr, n) == s0.has_l1_path_from(
                    rr,
                    n,
                ),
            forall|rr: int, n: int|
                s0.stored(rr) && s0.level_at(rr) == 4 && rr != rt && 0 <= n && p4_index_spec(n)
                    != 511 && s0.has_l1_path_from(rr, n) ==> #[trigger] post.l1_frame_from(rr, n)
                    == s0.l1_frame_from(rr, n),
            forall|rr: int, n: int|
                s0.stored(rr) && s0.level_at(rr) == 4 && rr != rt && 0 <= n && p4_index_spec(n)
                    != 511 ==> #[trigger] post.resolve_from(rr, n) == s0.resolve_from(rr, n)
                    && post.mappable_from(rr, n) == s0.mappable_from(rr, n),
            forall|q: int|
                0 <= q && p4_index_spec(q) != 511 ==> #[trigger] post.has_l1_path_from(rt, q)
                    == s0.has_l1_path_from(rt, q),
            forall|q: int|
                0 <= q && p4_index_spec(q) != 511 && s0.has_l1_path_from(rt, q)
                    ==> #[trigger] post.l1_frame_from(rt, q) == s0.l1_frame_from(rt, q),
    {
        let i1 = p1_index_spec(pn);
        assert forall|rr: int, n: int|
            s0.stored(rr) && s0.level_at(rr) == 4 && page_valid(n) && p4_index_spec(n) != 511 && n
                != pn implies #[trigger] post.resolve_from(rr, n) == s0.resolve_from(rr, n)
            && post.mappable_from(rr, n) == s0.mappable_from(rr, n) by {
            Mapper::lemma_walk_preserved_at(s0, post, rr, f1i, n);
            if s0.has_l1_path_from(rr, n) && s0.l1_frame_from(rr, n) == f1i {
                s0.lemma_l1_owner(rr, n, rt, pn);
                assert(rr == rt);
                if p1_index_spec(n) == i1 {
                    crate::paging::lemma_page_from_indices(n, pn);
                    assert(false);
                }
                assert(post.table_at(f1i)[p1_index_spec(n)] == s0.table_at(f1i)[p1_index_spec(n)]);
                assert(Mapper::unchanged_frame(s0, post, rr));
                assert(post.child_at(rr, p4_index_spec(n)) == s0.child_at(rr, p4_index_spec(n)));
                assert(s0.entry_ok(rr, p4_index_spec(n)));
                let g3 = s0.child_at(rr, p4_index_spec(n))->0;
                assert(s0.level_at(g3) == 3 && g3 != f1i);
                assert(Mapper::unchanged_frame(s0, post, g3));
                assert(s0.entry_ok(g3, p3_index_spec(n)));
                let g2 = s0.child_at(g3, p3_index_spec(n))->0;
                assert(s0.level_at(g2) == 2 && g2 != f1i);
                assert(Mapper::unchanged_frame(s0, post, g2));
                assert(post.resolve_from(rr, n) == s0.resolve_from(rr, n));
                assert(post.mappable_from(rr, n) == s0.mappable_from(rr, n));
            }
        };
        assert forall|rr: int, n: int|
            s0.stored(rr) && s0.level_at(rr) == 4 && rr != rt && 0 <= n && p4_index_spec(n)
                != 511 implies #[trigger] post.has_l1_path_from(rr, n) == s0.has_l1_path_from(
            rr,
            n,
        ) by {
            Mapper::lemma_other_root_preserved(s0, post, rr, f1i, n);
        };
        assert forall|rr: int, n: int|
            s0.stored(rr) && s0.level_at(rr) == 4 && rr != rt && 0 <= n && p4_index_spec(n) != 511
                && s0.has_l1_path_from(rr, n) implies #[trigger] post.l1_frame_from(rr, n)
            == s0.l1_frame_from(rr, n) by {
            Mapper::lemma_other_root_preserved(s0, post, rr, f1i, n);
        };
        assert forall|rr: int, n: int|
            s0.stored(rr) && s0.level_at(rr) == 4 && rr != rt && 0 <= n && p4_index_spec(n)
                != 511 implies #[trigger] post.resolve_from(rr, n) == s0.resolve_from(rr, n)
            && post.mappable_from(rr, n) == s0.mappable_from(rr, n) by {
            Mapper::lemma_other_root_preserved(s0, post, rr, f1i, n);
        };
        assert forall|q: int|
            0 <= q && p4_index_spec(q) != 511 implies #[trigger] post.has_l1_path_from(rt, q)
            == s0.has_l1_path_from(rt, q) by {
            Mapper::lemma_walk_preserved_at(s0, post, rt, f1i, q);
        };
        assert forall|q: int|
            0 <= q && p4_index_spec(q) != 511 && s0.has_l1_path_from(
                rt,
                q,
            ) implies #[trigger] post.l1_frame_from(rt, q) == s0.l1_frame_from(rt, q) by {
            Mapper::lemma_walk_preserved_at(s0, post, rt, f1i, q);
        };
    }

    /// Find the store slot holding frame `frame`.
    fn find_slot(&self, frame: u64) -> (r: Option<usize>)
        ensures
            match r {
                Some(i) => i < self.slots@.len() && self.slots@[i as int].frame == frame,
                None => !self.stored(frame as int),
            },
    {
        let mut i: usize = 0;
        while i < self.slots.len()
            invariant
                0 <= i <= self.slots@.len(),
                forall|j: int| 0 <= j < i ==> self.slots@[j].frame != frame,
            decreases self.slots@.len() - i,
        {
            if self.slots[i].frame == frame {
                return Some(i);
            }
            i = i + 1;
        }
        None
    }

    /// Append a freshly zeroed table for frame `frame` at the given level.
    fn push_slot(&mut self, frame: u64, Ghost(level): Ghost<nat>)
        requires
            old(self).distinct(),
            !old(self).stored(frame as int),
            frame < FRAME_LIMIT,
            1 <= level <= 4,
            forall|i: int|
                0 <= i < old(self).slots@.len() ==> Mapper::slot_basic_wf(
                    #[trigger] old(self).slots@[i],
                ),
        ensures
            final(self).distinct(),
            final(self).p4_frame == old(self).p4_frame,
            forall|f: int|
                f != frame as int ==> #[trigger] Mapper::unchanged_frame(*old(self), *final(self), f),
            final(self).stored(frame as int),
            final(self).level_at(frame as int) == level,
            forall|j: int| 0 <= j < 512 ==> final(self).table_at(frame as int)[j] == 0,
            final(self).table_at(frame as int).len() == 512,
            forall|i: int|
                0 <= i < final(self).slots@.len() ==> Mapper::slot_basic_wf(
                    #[trigger] final(self).slots@[i],
                ),
            final(self).frames() =~= old(self).frames().insert(frame as int),
    {
        let table = Table::new();
        let slot = TableSlot { frame, level: Ghost(level), table };
        self.slots.push(slot);
        proof {
            let pre = *old(self);
            let post = *self;
            let len = pre.slots@.len() as int;
            assert(post.slots@ == pre.slots@.push(slot));
            assert forall|i: int, j: int| 0 <= i < j < post.slots@.len() implies post.slots@[i].frame
                != post.slots@[j].frame by {
                if j < len {
                    assert(pre.slots@[i].frame != pre.slots@[j].frame);
                } else {
                    assert(post.slots@[j] == slot);
                    assert(pre.slots@[i].frame != frame);
                }
            };
            assert forall|f: int| f != frame as int implies #[trigger] Mapper::unchanged_frame(
                pre,
                post,
                f,
            ) by {
                if pre.stored(f) {
                    let i = pre.slot_index(f);
                    pre.lemma_slot(i);
                    assert(post.slots@[i] == pre.slots@[i]);
                    post.lemma_slot(i);
                } else {
                    if post.stored(f) {
                        let i = post.slot_index(f);
                        assert(0 <= i < len + 1 && post.slots@[i].frame == f);
                        if i < len {
                            assert(pre.slots@[i].frame == f);
                        }
                        assert(false);
                    }
                }
            };
            assert(post.slots@[len] == slot);
            post.lemma_slot(len);
            assert forall|g: int| post.frames().contains(g) == pre.frames().insert(
                frame as int,
            ).contains(g) by {
                if g != frame as int {
                    assert(Mapper::unchanged_frame(pre, post, g));
                }
            };
            assert(post.frames() =~= pre.frames().insert(frame as int));
        }
    }

    /// Overwrite entry `k` of the table kept in frame `f`.
    fn write_entry(&mut self, f: u64, k: usize, e: u64)
        requires
            old(self).distinct(),
            old(self).stored(f as int),
            forall|i: int|
                0 <= i < old(self).slots@.len() ==> Mapper::slot_basic_wf(
                    #[trigger] old(self).slots@[i],
                ),
            k < 512,
        ensures
            final(self).distinct(),
            final(self).p4_frame == old(self).p4_frame,
            forall|g: int|
                g != f as int ==> #[trigger] Mapper::unchanged_frame(*old(self), *final(self), g),
            final(self).stored(f as int),
            final(self).level_at(f as int) == old(self).level_at(f as int),
            final(self).table_at(f as int) == old(self).table_at(f as int).update(k as int, e),
            forall|i: int|
                0 <= i < final(self).slots@.len() ==> Mapper::slot_basic_wf(
                    #[trigger] final(self).slots@[i],
                ),
            final(self).frames() =~= old(self).frames(),
    {
        match self.find_slot(f) {
            Some(i) => {
                proof {
                    self.lemma_slot(i as int);
                }
                self.slots[i].table.set_entry(k, Entry(e));
                proof {
                    let pre = *old(self);
                    let post = *self;
                    let ii = i as int;
                    assert(post.slots@[ii].frame == pre.slots@[ii].frame);
                    assert(post.slots@[ii].level == pre.slots@[ii].level);
                    assert(post.slots@[ii].table@ == pre.slots@[ii].table@.update(k as int, e));
                    assert forall|a: int, b: int|
                        0 <= a < b < post.slots@.len() implies post.slots@[a].frame
                        != post.slots@[b].frame by {
                        assert(pre.slots@[a].frame != pre.slots@[b].frame);
                    };
                    assert forall|g: int| g != f as int implies #[trigger] Mapper::unchanged_frame(
                        pre,
                        post,
                        g,
                    ) by {
                        if pre.stored(g) {
                            let a = pre.slot_index(g);
                            pre.lemma_slot(a);
                            assert(a != ii);
                            assert(post.slots@[a] == pre.slots@[a]);
                            post.lemma_slot(a);
                        } else {
                            if post.stored(g) {
                                let a = post.slot_index(g);
                                assert(pre.slots@[a].frame == post.slots@[a].frame);
                                assert(false);
                            }
                        }
                    };
                    pre.lemma_slot(ii);
                    post.lemma_slot(ii);
                    assert forall|g: int| post.frames().contains(g) == pre.frames().contains(
                        g,
                    ) by {
                        if g != f as int {
                            assert(Mapper::unchanged_frame(pre, post, g));
                        }
                    };
                    assert(post.frames() =~= pre.frames());
                }
            },
            None => vstd::pervasive::unreached(),
        }
    }

    /// Read entry `k` of the table kept in frame `f`, which must hold one.
    fn read_entry(&self, f: u64, k: usize) -> (e: u64)
        requires
            self.distinct(),
            self.stored(f as int),
            forall|i: int|
                0 <= i < self.slots@.len() ==> Mapper::slot_basic_wf(#[trigger] self.slots@[i]),
            k < 512,
        ensures
            e == self.table_at(f as int)[k as int],
    {
        match self.find_slot(f) {
            Some(i) => {
                proof {
                    self.lemma_slot(i as int);
                }
                self.slots[i].table.entry(k).0
            },
            None => vstd::pervasive::unreached(),
        }
    }

    /// The allocating half of `next_table_create`: the entry is unused, so
    /// a frame is drawn, zeroed, and installed present and writable.
    #[verifier::rlimit(100)]
    #[verifier::spinoff_prover]
    fn next_table_alloc<A: FrameAllocator>(
        &mut self,
        parent: u64,
        index: usize,
        allocator: &mut A,
    ) -> (child: u64)
        requires
            old(self).inv(),
            old(self).stored(parent as int),
            2 <= old(self).level_at(parent as int) <= 4,
            old(self).level_at(parent as int) == 4 ==> index != 511,
            index < 512,
            old(self).on_walk_path(old(self).root(), parent as int),
            old(self).table_at(parent as int)[index as int] == 0,
            old(allocator).inv(),
            old(allocator).available().disjoint(old(self).frames()),
            forall|m: int| old(allocator).available().contains(m) ==> 0 <= m < FRAME_LIMIT,
            old(self).table_at(parent as int)[index as int] == 0 ==> !old(
                allocator,
            ).available().is_empty(),
        ensures
            final(self).inv(),
            final(self).p4_frame == old(self).p4_frame,
            final(allocator).inv(),
            final(allocator).available().disjoint(final(self).frames()),
            forall|m: int| final(allocator).available().contains(m) ==> 0 <= m < FRAME_LIMIT,
            final(self).stored(child as int),
            final(self).level_at(child as int) == old(self).level_at(parent as int) - 1,
            final(self).stored(parent as int),
            final(self).level_at(parent as int) == old(self).level_at(parent as int),
            final(self).child_at(parent as int, index as int) == Some(child as int),
            child < FRAME_LIMIT,
            old(allocator).available().contains(child as int),
            final(allocator).available() =~= old(allocator).available().remove(child as int),
            !old(self).stored(child as int),
            final(self).frames() =~= old(self).frames().insert(child as int),
            forall|f: int|
                f != parent as int && f != child as int ==> #[trigger] Mapper::unchanged_frame(
                    *old(self),
                    *final(self),
                    f,
                ),
            final(self).table_at(parent as int) == old(self).table_at(parent as int).update(
                index as int,
                pack_entry(child, PRESENT | WRITABLE),
            ),
            forall|j: int| 0 <= j < 512 ==> final(self).table_at(child as int)[j] == 0,
            forall|rr: int, n: int|
                old(self).stored(rr) && old(self).level_at(rr) == 4 && page_valid(n)
                    && p4_index_spec(n) != 511 ==> #[trigger] final(self).resolve_from(rr, n)
                    == old(self).resolve_from(rr, n) && final(self).mappable_from(rr, n) == old(
                    self,
                ).mappable_from(rr, n),
            forall|rr: int, n: int|
                old(self).stored(rr) && old(self).level_at(rr) == 4 && rr != old(self).root() && 0
                    <= n && p4_index_spec(n) != 511 ==> #[trigger] final(self).has_l1_path_from(
                    rr,
                    n,
                ) == old(self).has_l1_path_from(rr, n),
            forall|rr: int, n: int|
                old(self).stored(rr) && old(self).level_at(rr) == 4 && rr != old(self).root() && 0
                    <= n && p4_index_spec(n) != 511 && old(self).has_l1_path_from(rr, n)
                    ==> #[trigger] final(self).l1_frame_from(rr, n) == old(self).l1_frame_from(
                    rr,
                    n,
                ),
            forall|rr: int, n: int|
                old(self).stored(rr) && old(self).level_at(rr) == 4 && rr != old(self).root() && 0
                    <= n && p4_index_spec(n) != 511 ==> #[trigger] final(self).resolve_from(rr, n)
                    == old(self).resolve_from(rr, n) && final(self).mappable_from(rr, n) == old(
                    self,
                ).mappable_from(rr, n),
    {
        let frame = match allocator.allocate_frame() {
            Some(f) => f,
            None => {
                proof {
                    assert(false);
                }
                vstd::pervasive::unreached()
            },
        };
        let c = frame.number;
        let ghost pre = *old(self);
        let ghost lv = pre.level_at(parent as int);
        proof {
            assert(pre.frames().contains(c as int) == pre.stored(c as int));
            assert(!pre.stored(c as int));
        }
        self.push_slot(c, Ghost((lv - 1) as nat));
        let ghost mid = *self;
        let packed = (c << 12) | (PRESENT | WRITABLE);
        proof {
            assert(packed == pack_entry(c, PRESENT | WRITABLE)) by (bit_vector)
                requires
                    packed == (c << 12) | (PRESENT | WRITABLE),
            ;
            crate::entry::lemma_present_writable_flags();
            crate::entry::lemma_entry_round_trip(c, PRESENT | WRITABLE);
            crate::entry::lemma_zero_entry();
            // The pushed slot leaves the rest of the store as it was.
            assert(Mapper::unchanged_frame(pre, mid, parent as int));
            assert(mid.stored(parent as int) && mid.level_at(parent as int) == lv);
            // The intermediate store still satisfies the invariant, and
            // nothing points at the fresh table yet.
            Mapper::lemma_push_fresh_inv(pre, mid, c);
            assert(mid.inv());
        }
        self.write_entry(parent, index, packed);
        proof {
            let post = *self;
            let pa = parent as int;
            let ci = c as int;
            // The invariant of the final store, the frame bookkeeping and
            // the preservation facts all come from the summary lemma.
            assert(Mapper::unchanged_frame(mid, post, ci));
            assert(post.child_at(pa, index as int) == Some(ci));
            Mapper::lemma_create_summary(pre, mid, post, pa, index as int, c);
        }
        c
    }

    /// The table behind entry `index` of the table kept in `parent`,
    /// creating it when the entry is unused: a frame is drawn from the
    /// allocator, zeroed, and installed present and writable.  Translations
    /// and mappability are untouched for every page outside the reserved
    /// self-map slot, in every hierarchy of the store.
    #[verifier::rlimit(100)]
    #[verifier::spinoff_prover]
    pub fn next_table_create<A: FrameAllocator>(
        &mut self,
        parent: u64,
        index: usize,
        allocator: &mut A,
    ) -> (child: u64)
        requires
            old(self).inv(),
            old(self).stored(parent as int),
            2 <= old(self).level_at(parent as int) <= 4,
            old(self).level_at(parent as int) == 4 ==> index != 511,
            index < 512,
            old(self).on_walk_path(old(self).root(), parent as int),
            ({
                let e = old(self).table_at(parent as int)[index as int];
                e == 0 || (entry_present(e) && !entry_huge(e))
            }),
            old(allocator).inv(),
            old(allocator).available().disjoint(old(self).frames()),
            forall|m: int| old(allocator).available().contains(m) ==> 0 <= m < FRAME_LIMIT,
            old(self).table_at(parent as int)[index as int] == 0 ==> !old(allocator).available().is_empty(),
        ensures
            final(self).inv(),
            final(self).p4_frame == old(self).p4_frame,
            final(allocator).inv(),
            final(allocator).available().disjoint(final(self).frames()),
            forall|m: int| final(allocator).available().contains(m) ==> 0 <= m < FRAME_LIMIT,
            final(self).stored(child as int),
            final(self).level_at(child as int) == old(self).level_at(parent as int) - 1,
            final(self).stored(parent as int),
            final(self).level_at(parent as int) == old(self).level_at(parent as int),
            final(self).child_at(parent as int, index as int) == Some(child as int),
            child < FRAME_LIMIT,
            ({
                let e = old(self).table_at(parent as int)[index as int];
                if e != 0 {
                    *final(self) == *old(self) && *final(allocator) == *old(allocator) && child
                        == entry_frame(e)
                } else {
                    &&& old(allocator).available().contains(child as int)
                    &&& final(allocator).available() =~= old(allocator).available().remove(
                        child as int,
                    )
                    &&& !old(self).stored(child as int)
                    &&& final(self).frames() =~= old(self).frames().insert(child as int)
                    &&& forall|f: int|
                        f != parent as int && f != child as int
                            ==> #[trigger] Mapper::unchanged_frame(*old(self), *final(self), f)
                    &&& final(self).table_at(parent as int) == old(self).table_at(
                        parent as int,
                    ).update(index as int, pack_entry(child, PRESENT | WRITABLE))
                    &&& forall|j: int| 0 <= j < 512 ==> final(self).table_at(child as int)[j] == 0
                }
            }),
            forall|rr: int, n: int|
                old(self).stored(rr) && old(self).level_at(rr) == 4 && page_valid(n)
                    && p4_index_spec(n) != 511 ==> #[trigger] final(self).resolve_from(rr, n)
                    == old(self).resolve_from(rr, n) && final(self).mappable_from(rr, n) == old(
                    self,
                ).mappable_from(rr, n),
            forall|rr: int, n: int|
                old(self).stored(rr) && old(self).level_at(rr) == 4 && rr != old(self).root() && 0
                    <= n && p4_index_spec(n) != 511 ==> #[trigger] final(self).has_l1_path_from(
                    rr,
                    n,
                ) == old(self).has_l1_path_from(rr, n),
            forall|rr: int, n: int|
                old(self).stored(rr) && old(self).level_at(rr) == 4 && rr != old(self).root() && 0
                    <= n && p4_index_spec(n) != 511 && old(self).has_l1_path_from(rr, n)
                    ==> #[trigger] final(self).l1_frame_from(rr, n) == old(self).l1_frame_from(
                    rr,
                    n,
                ),
            forall|rr: int, n: int|
                old(self).stored(rr) && old(self).level_at(rr) == 4 && rr != old(self).root() && 0
                    <= n && p4_index_spec(n) != 511 ==> #[trigger] final(self).resolve_from(rr, n)
                    == old(self).resolve_from(rr, n) && final(self).mappable_from(rr, n) == old(
                    self,
                ).mappable_from(rr, n),
    {
        let e = self.read_entry(parent, index);
        proof {
            assert(old(self).entry_ok(parent as int, index as int));
        }
        if e != 0 {
            let c = (e & crate::entry::ADDR_MASK) >> 12;
            proof {
                assert(c == entry_frame(e) && c < 0x100_0000_0000) by (bit_vector)
                    requires
                        c == (e & crate::entry::ADDR_MASK) >> 12,
                ;
            }
            c
        } else {
            self.next_table_alloc(parent, index, allocator)
        }
    }

    /// A level-1 table is reached by exactly one root and one index path:
    /// two walks ending in the same level-1 table agree on their root and
    /// on all three upper indices.
    pub proof fn lemma_l1_owner(self, rr: int, n: int, rt: int, m: int)
        requires
            self.inv(),
            self.stored(rr),
            self.level_at(rr) == 4,
            self.stored(rt),
            self.level_at(rt) == 4,
            0 <= n,
            0 <= m,
            p4_index_spec(n) != 511,
            p4_index_spec(m) != 511,
            self.has_l1_path_from(rr, n),
            self.has_l1_path_from(rt, m),
            self.l1_frame_from(rr, n) == self.l1_frame_from(rt, m),
        ensures
            rr == rt,
            p4_index_spec(n) == p4_index_spec(m),
            p3_index_spec(n) == p3_index_spec(m),
            p2_index_spec(n) == p2_index_spec(m),
    {
        let i4 = p4_index_spec(n);
        let i3 = p3_index_spec(n);
        let i2 = p2_index_spec(n);
        let j4 = p4_index_spec(m);
        let j3 = p3_index_spec(m);
        let j2 = p2_index_spec(m);
        assert(self.entry_ok(rr, i4));
        let f3 = self.child_at(rr, i4)->0;
        assert(self.entry_ok(f3, i3));
        let f2 = self.child_at(f3, i3)->0;
        assert(self.entry_ok(f2, i2));
        let f1 = self.child_at(f2, i2)->0;
        assert(self.entry_ok(rt, j4));
        let g3 = self.child_at(rt, j4)->0;
        assert(self.entry_ok(g3, j3));
        let g2 = self.child_at(g3, j3)->0;
        assert(self.entry_ok(g2, j2));
        let g1 = self.child_at(g2, j2)->0;
        assert(f1 == g1);
        assert(self.level_at(f1) == 1);
        assert(f2 == g2 && i2 == j2);
        assert(self.level_at(f2) == 2);
        assert(f3 == g3 && i3 == j3);
        assert(self.level_at(f3) == 3);
        assert(rr == rt && i4 == j4);
    }

    /// A fresh machine state: a single zeroed level-4 table in `p4_frame`
    /// whose last slot points back at itself, serving as walk root.  Every
    /// page outside the reserved self-map slot is unmapped and mappable.
    pub fn new(p4_frame: Frame) -> (r: Mapper)
        requires
            p4_frame.number < FRAME_LIMIT,
        ensures
            r.inv(),
            r.self_mapped(),
            r.root() == p4_frame.number,
            r.frames() =~= Set::<int>::empty().insert(p4_frame.number as int),
            forall|n: int|
                page_valid(n) && p4_index_spec(n) != 511 ==> r.translate_page_spec(n) == None::<
                    int,
                >,
            forall|n: int| page_valid(n) && p4_index_spec(n) != 511 ==> r.mappable(n),
    {
        let mut table = Table::new();
        let mut e = Entry(0);
        e.set(p4_frame.clone(), EntryFlags::from_bits_truncate(PRESENT | WRITABLE));
        table.set_entry(SELF_MAP_INDEX, e);
        let r = Mapper {
            slots: vec![TableSlot::new(p4_frame.number, 4, table)],
            p4_frame: p4_frame.number,
        };
        proof {
            let rt = p4_frame.number as int;
            r.lemma_slot(0);
            crate::entry::lemma_present_writable_flags();
            crate::entry::lemma_entry_round_trip(p4_frame.number, PRESENT | WRITABLE);
            crate::entry::lemma_zero_entry();
            assert(r.table_at(rt)[511] == pack_entry(p4_frame.number, PRESENT | WRITABLE));
            assert(entry_present(r.table_at(rt)[511]));
            assert(!entry_huge(r.table_at(rt)[511]));
            assert(entry_frame(r.table_at(rt)[511]) == p4_frame.number);
            assert forall|f: int, k: int| r.stored(f) && 0 <= k < 512 implies #[trigger] r.entry_ok(
                f,
                k,
            ) by {
                assert(r.slot_index(f) == 0);
                assert(f == rt);
                if k != 511 {
                    assert(r.table_at(rt)[k] == 0);
                }
            };
            assert(r.inv());
            assert(r.self_mapped());
            assert forall|n: int| page_valid(n) && p4_index_spec(n) != 511 implies {
                &&& r.translate_page_spec(n) == None::<int>
                &&& r.mappable(n)
            } by {
                assert(r.table_at(rt)[p4_index_spec(n)] == 0);
                assert(!entry_present(0));
            };
        }
        r
    }

    /// Two states with the same slots agree on every frame's table; only
    /// the walk root may differ.
    pub proof fn lemma_same_slots(a: Mapper, b: Mapper)
        requires
            a.slots == b.slots,
            a.distinct(),
        ensures
            b.distinct(),
            forall|f: int| #[trigger] Mapper::unchanged_frame(a, b, f),
    {
        assert forall|f: int| #[trigger] Mapper::unchanged_frame(a, b, f) by {
            if a.stored(f) {
                let i = a.slot_index(f);
                a.lemma_slot(i);
                assert(b.slots@[i].frame == f);
                b.lemma_slot(i);
            } else {
                if b.stored(f) {
                    let i = b.slot_index(f);
                    assert(a.slots@[i].frame == f);
                    assert(false);
                }
            }
        };
    }

    /// When every frame holds the same table in both states, every walk
    /// from every root resolves identically.
    pub proof fn lemma_all_unchanged_walks(pre: Mapper, post: Mapper, r: int)
        requires
            forall|f: int| #[trigger] Mapper::unchanged_frame(pre, post, f),
        ensures
            forall|n: int| #[trigger] post.resolve_from(r, n) == pre.resolve_from(r, n),
            forall|n: int| #[trigger] post.has_l1_path_from(r, n) == pre.has_l1_path_from(r, n),
            forall|n: int| #[trigger] post.l1_frame_from(r, n) == pre.l1_frame_from(r, n),
            forall|n: int| #[trigger] post.mappable_from(r, n) == pre.mappable_from(r, n),
    {
        assert forall|n: int| #[trigger] post.resolve_from(r, n) == pre.resolve_from(r, n) by {
            Mapper::lemma_all_unchanged_walk_at(pre, post, r, n);
        };
        assert forall|n: int| #[trigger] post.has_l1_path_from(r, n) == pre.has_l1_path_from(
            r,
            n,
        ) by {
            Mapper::lemma_all_unchanged_walk_at(pre, post, r, n);
        };
        assert forall|n: int| #[trigger] post.l1_frame_from(r, n) == pre.l1_frame_from(r, n) by {
            Mapper::lemma_all_unchanged_walk_at(pre, post, r, n);
        };
        assert forall|n: int| #[trigger] post.mappable_from(r, n) == pre.mappable_from(r, n) by {
            Mapper::lemma_all_unchanged_walk_at(pre, post, r, n);
        };
    }

    /// One walk of `lemma_all_unchanged_walks`.
    proof fn lemma_all_unchanged_walk_at(pre: Mapper, post: Mapper, r: int, n: int)
        requires
            forall|f: int| #[trigger] Mapper::unchanged_frame(pre, post, f),
        ensures
            post.resolve_from(r, n) == pre.resolve_from(r, n),
            post.has_l1_path_from(r, n) == pre.has_l1_path_from(r, n),
            post.l1_frame_from(r, n) == pre.l1_frame_from(r, n),
            post.mappable_from(r, n) == pre.mappable_from(r, n),
    {
        assert(Mapper::unchanged_frame(pre, post, r));
        let e4 = pre.table_at(r)[p4_index_spec(n)];
        let f3 = entry_frame(e4) as int;
        assert(Mapper::unchanged_frame(pre, post, f3));
        let e3 = pre.table_at(f3)[p3_index_spec(n)];
        let f2 = entry_frame(e3) as int;
        assert(Mapper::unchanged_frame(pre, post, f2));
        let e2 = pre.table_at(f2)[p2_index_spec(n)];
        let f1 = entry_frame(e2) as int;
        assert(Mapper::unchanged_frame(pre, post, f1));
        let g3 = pre.child_at(r, p4_index_spec(n))->0;
        assert(Mapper::unchanged_frame(pre, post, g3));
        let g2 = pre.child_at(g3, p3_index_spec(n))->0;
        assert(Mapper::unchanged_frame(pre, post, g2));
        let g1 = pre.child_at(g2, p2_index_spec(n))->0;
        assert(Mapper::unchanged_frame(pre, post, g1));
    }

    /// Moving the walk root to another stored level-4 table (the model of
    /// writing the translation-root register) preserves the invariant and
    /// every frame's contents.
    pub proof fn lemma_retarget(pre: Mapper, post: Mapper)
        requires
            pre.inv(),
            post.slots == pre.slots,
            pre.stored(post.root()),
            pre.level_at(post.root()) == 4,
        ensures
            post.inv(),
            forall|f: int| #[trigger] Mapper::unchanged_frame(pre, post, f),
    {
        Mapper::lemma_same_slots(pre, post);
        assert forall|f: int, k: int| post.stored(f) && 0 <= k < 512 implies #[trigger] post.entry_ok(
            f,
            k,
        ) by {
            assert(Mapper::unchanged_frame(pre, post, f));
            assert(pre.entry_ok(f, k));
            let t = entry_frame(pre.table_at(f)[k]) as int;
            assert(Mapper::unchanged_frame(pre, post, t));
        };
        assert forall|f: int, k: int, g: int, l: int|
            {
                (post.stored(f) && post.stored(g) && 0 <= k < 512 && 0 <= l < 512 && post.level_at(
                    f,
                ) >= 2 && post.level_at(g) >= 2 && (#[trigger] post.child_at(f, k)) is Some && (
                #[trigger] post.child_at(g, l)) is Some && post.child_at(f, k) == post.child_at(
                    g,
                    l,
                ) && post.level_at(post.child_at(f, k)->0) <= 3)
            } implies (f == g && k == l) by {
            assert(Mapper::unchanged_frame(pre, post, f));
            assert(Mapper::unchanged_frame(pre, post, g));
            assert(pre.child_at(f, k) == post.child_at(f, k));
            assert(pre.child_at(g, l) == post.child_at(g, l));
            let d = post.child_at(f, k)->0;
            assert(Mapper::unchanged_frame(pre, post, d));
        };
        assert(Mapper::unchanged_frame(pre, post, post.root()));
    }

    /// A change to the root's own recursive-mapping slot is invisible to
    /// every page that does not route through it: walks with a level-4
    /// index other than 511 read the root only at their first step, and
    /// every deeper table has a lower level.
    proof fn lemma_walk_preserved_self511(pre: Mapper, post: Mapper, r: int, n: int)
        requires
            pre.inv(),
            pre.stored(r),
            pre.level_at(r) == 4,
            forall|f: int| f != r ==> #[trigger] Mapper::unchanged_frame(pre, post, f),
            post.stored(r),
            post.level_at(r) == 4,
            post.table_at(r).len() == 512,
            forall|k: int| 0 <= k < 511 ==> post.table_at(r)[k] == pre.table_at(r)[k],
            0 <= n,
            p4_index_spec(n) != 511,
        ensures
            post.has_l1_path_from(r, n) == pre.has_l1_path_from(r, n),
            pre.has_l1_path_from(r, n) ==> post.l1_frame_from(r, n) == pre.l1_frame_from(r, n),
            post.resolve_from(r, n) == pre.resolve_from(r, n),
            post.mappable_from(r, n) == pre.mappable_from(r, n),
    {
        let i4 = p4_index_spec(n);
        assert(post.table_at(r)[i4] == pre.table_at(r)[i4]);
        assert(pre.entry_ok(r, i4));
        let e4 = pre.table_at(r)[i4];
        if entry_present(e4) && !entry_huge(e4) {
            let t1 = entry_frame(e4) as int;
            assert(pre.level_at(t1) == 3);
            assert(Mapper::unchanged_frame(pre, post, t1));
            assert(pre.entry_ok(t1, p3_index_spec(n)));
            let e3 = pre.table_at(t1)[p3_index_spec(n)];
            if entry_present(e3) && !entry_huge(e3) {
                let t2 = entry_frame(e3) as int;
                assert(pre.level_at(t2) == 2);
                assert(Mapper::unchanged_frame(pre, post, t2));
                assert(pre.entry_ok(t2, p2_index_spec(n)));
                let e2 = pre.table_at(t2)[p2_index_spec(n)];
                if entry_present(e2) && !entry_huge(e2) {
                    let t3 = entry_frame(e2) as int;
                    assert(pre.level_at(t3) == 1);
                    assert(Mapper::unchanged_frame(pre, post, t3));
                }
            }
        }
    }

    /// The level-1 table a walk ends in is the root itself (for self-map
    /// routes) or a table of level 3 or below; it is never another root.
    proof fn lemma_l1_frame_level(s: Mapper, r: int, n: int)
        requires
            s.inv(),
            s.stored(r),
            s.level_at(r) == 4,
            s.child_at(r, 511) == Some(r),
            s.has_l1_path_from(r, n),
            0 <= n,
        ensures
            s.l1_frame_from(r, n) == r || s.level_at(s.l1_frame_from(r, n)) <= 3,
    {
        let i4 = p4_index_spec(n);
        let i3 = p3_index_spec(n);
        let i2 = p2_index_spec(n);
        assert(s.entry_ok(r, i4));
        let f3 = s.child_at(r, i4)->0;
        assert(f3 == r || s.level_at(f3) == 3);
        assert(s.entry_ok(f3, i3));
        let f2 = s.child_at(f3, i3)->0;
        assert(f2 == r || s.level_at(f2) <= 3);
        assert(s.entry_ok(f2, i2));
    }

    /// Redirect the walk through the other hierarchy: overwrite the current
    /// root's recursive-mapping slot with `target` and resolve walks from
    /// `target` from now on.  This models rewriting the active table's last
    /// entry and flushing the whole translation cache: the table-walking
    /// code reaches every table through the recursive slot, so all walks
    /// move onto the other hierarchy at once.  The target hierarchy's own
    /// translations are untouched by the rewrite.
    pub fn enter_hierarchy(&mut self, target: Frame) -> (prev: Frame)
        requires
            old(self).inv(),
            old(self).self_mapped(),
            old(self).stored(target.number as int),
            old(self).level_at(target.number as int) == 4,
            old(self).child_at(target.number as int, 511) == Some(target.number as int),
            target.number as int != old(self).root(),
        ensures
            final(self).inv(),
            final(self).self_mapped(),
            prev.number as int == old(self).root(),
            final(self).root() == target.number as int,
            final(self).frames() =~= old(self).frames(),
            forall|f: int| final(self).level_at(f) == old(self).level_at(f),
            forall|f: int|
                f != prev.number as int ==> #[trigger] Mapper::unchanged_frame(
                    *old(self),
                    *final(self),
                    f,
                ),
            final(self).table_at(prev.number as int) == old(self).table_at(
                prev.number as int,
            ).update(511, pack_entry(target.number, PRESENT | WRITABLE)),
            final(self).child_at(prev.number as int, 511) == Some(target.number as int),
            forall|n: int|
                0 <= n ==> #[trigger] final(self).translate_page_spec(n) == old(self).resolve_from(
                    target.number as int,
                    n,
                ),
            forall|n: int|
                0 <= n ==> #[trigger] final(self).has_l1_path_from(final(self).root(), n) == old(
                    self,
                ).has_l1_path_from(target.number as int, n),
            forall|n: int|
                0 <= n && old(self).has_l1_path_from(target.number as int, n)
                    ==> #[trigger] final(self).l1_frame_from(final(self).root(), n) == old(
                    self,
                ).l1_frame_from(target.number as int, n),
            forall|n: int|
                0 <= n ==> #[trigger] final(self).mappable(n) == old(self).mappable_from(
                    target.number as int,
                    n,
                ),
            forall|n: int|
                0 <= n && p4_index_spec(n) != 511 ==> #[trigger] final(self).resolve_from(
                    prev.number as int,
                    n,
                ) == old(self).resolve_from(prev.number as int, n),
            forall|n: int|
                0 <= n && p4_index_spec(n) != 511 ==> #[trigger] final(self).has_l1_path_from(
                    prev.number as int,
                    n,
                ) == old(self).has_l1_path_from(prev.number as int, n),
            forall|n: int|
                0 <= n && p4_index_spec(n) != 511 && old(self).has_l1_path_from(
                    prev.number as int,
                    n,
                ) ==> #[trigger] final(self).l1_frame_from(prev.number as int, n) == old(
                    self,
                ).l1_frame_from(prev.number as int, n),
    {
        let ghost pre = *old(self);
        let prev = Frame { number: self.p4_frame };
        let t = target.number;
        let packed = (t << 12) | (PRESENT | WRITABLE);
        proof {
            assert(packed == pack_entry(t, PRESENT | WRITABLE)) by (bit_vector)
                requires
                    packed == (t << 12) | (PRESENT | WRITABLE),
            ;
        }
        self.write_entry(prev.number, SELF_MAP_INDEX, packed);
        let ghost w = *self;
        self.p4_frame = t;
        proof {
            let post = *self;
            let ti = t as int;
            let pv = prev.number as int;
            Mapper::lemma_same_slots(w, post);
            assert forall|f: int| f != pv implies #[trigger] Mapper::unchanged_frame(
                pre,
                post,
                f,
            ) by {
                assert(Mapper::unchanged_frame(pre, w, f));
                assert(Mapper::unchanged_frame(w, post, f));
            };
            assert(Mapper::unchanged_frame(w, post, pv));
            assert(post.table_at(pv) == pre.table_at(pv).update(511, packed));
            assert(post.stored(pv) && post.level_at(pv) == pre.level_at(pv));
            crate::entry::lemma_present_writable_flags();
            crate::entry::lemma_entry_round_trip(t, PRESENT | WRITABLE);
            assert(entry_present(packed) && !entry_huge(packed) && entry_frame(packed) == t);
            assert(post.table_at(pv)[511] == packed);
            assert forall|f: int, k: int| post.stored(f) && 0 <= k < 512 implies #[trigger] post.entry_ok(
                f,
                k,
            ) by {
                if f == pv && k == 511 {
                    assert(Mapper::unchanged_frame(pre, post, ti));
                    assert(post.stored(ti) && post.level_at(ti) == 4);
                } else {
                    if f != pv {
                        assert(Mapper::unchanged_frame(pre, post, f));
                    }
                    assert(post.table_at(f)[k] == pre.table_at(f)[k]);
                    assert(pre.entry_ok(f, k));
                    let tg = entry_frame(pre.table_at(f)[k]) as int;
                    if tg != pv {
                        assert(Mapper::unchanged_frame(pre, post, tg));
                    }
                }
            };
            assert forall|f: int, k: int, g: int, l: int|
                {
                    (post.stored(f) && post.stored(g) && 0 <= k < 512 && 0 <= l < 512
                        && post.level_at(f) >= 2 && post.level_at(g) >= 2 && (
                    #[trigger] post.child_at(f, k)) is Some && (#[trigger] post.child_at(
                        g,
                        l,
                    )) is Some && post.child_at(f, k) == post.child_at(g, l) && post.level_at(
                        post.child_at(f, k)->0,
                    ) <= 3)
                } implies (f == g && k == l) by {
                let d = post.child_at(f, k)->0;
                let fk_new = f == pv && k == 511;
                let gl_new = g == pv && l == 511;
                if fk_new && gl_new {
                } else if fk_new || gl_new {
                    assert(Mapper::unchanged_frame(pre, post, ti));
                    assert(d == ti && post.level_at(d) == 4);
                    assert(false);
                } else {
                    if f != pv {
                        assert(Mapper::unchanged_frame(pre, post, f));
                    }
                    if g != pv {
                        assert(Mapper::unchanged_frame(pre, post, g));
                    }
                    assert(pre.child_at(f, k) == post.child_at(f, k));
                    assert(pre.child_at(g, l) == post.child_at(g, l));
                    if d == pv {
                        assert(post.level_at(d) == pre.level_at(d));
                    } else {
                        assert(Mapper::unchanged_frame(pre, post, d));
                    }
                }
            };
            assert(Mapper::unchanged_frame(pre, post, ti));
            assert(post.inv());
            assert(post.self_mapped());
            assert forall|f: int| post.level_at(f) == pre.level_at(f) by {
                if f != pv {
                    assert(Mapper::unchanged_frame(pre, post, f));
                }
            };
            assert(post.frames() =~= pre.frames()) by {
                assert forall|f: int| post.frames().contains(f) == pre.frames().contains(f) by {
                    if f != pv {
                        assert(Mapper::unchanged_frame(pre, post, f));
                    }
                };
            };
            assert forall|n: int| 0 <= n implies #[trigger] post.translate_page_spec(n)
                == pre.resolve_from(ti, n) by {
                Mapper::lemma_walk_preserved_at(pre, post, ti, pv, n);
                if pre.has_l1_path_from(ti, n) && pre.l1_frame_from(ti, n) == pv {
                    Mapper::lemma_l1_frame_level(pre, ti, n);
                    assert(false);
                }
            };
            assert forall|n: int| 0 <= n implies #[trigger] post.has_l1_path_from(post.root(), n)
                == pre.has_l1_path_from(ti, n) by {
                Mapper::lemma_walk_preserved_at(pre, post, ti, pv, n);
            };
            assert forall|n: int|
                0 <= n && pre.has_l1_path_from(ti, n) implies #[trigger] post.l1_frame_from(
                post.root(),
                n,
            ) == pre.l1_frame_from(ti, n) by {
                Mapper::lemma_walk_preserved_at(pre, post, ti, pv, n);
            };
            assert forall|n: int| 0 <= n implies #[trigger] post.mappable(n) == pre.mappable_from(
                ti,
                n,
            ) by {
                Mapper::lemma_walk_preserved_at(pre, post, ti, pv, n);
                if pre.has_l1_path_from(ti, n) && pre.l1_frame_from(ti, n) == pv {
                    Mapper::lemma_l1_frame_level(pre, ti, n);
                    assert(false);
                }
            };
            assert(post.table_at(pv).len() == 512);
            assert forall|n: int| 0 <= n && p4_index_spec(n) != 511 implies #[trigger] post.resolve_from(
                pv,
                n,
            ) == pre.resolve_from(pv, n) by {
                Mapper::lemma_walk_preserved_self511(pre, post, pv, n);
            };
            assert forall|n: int| 0 <= n && p4_index_spec(n) != 511 implies #[trigger] post.has_l1_path_from(
                pv,
                n,
            ) == pre.has_l1_path_from(pv, n) by {
                Mapper::lemma_walk_preserved_self511(pre, post, pv, n);
            };
            assert forall|n: int|
                0 <= n && p4_index_spec(n) != 511 && pre.has_l1_path_from(
                    pv,
                    n,
                ) implies #[trigger] post.l1_frame_from(pv, n) == pre.l1_frame_from(pv, n) by {
                Mapper::lemma_walk_preserved_self511(pre, post, pv, n);
            };
        }
        prev
    }

    /// Restore the recursive mapping of `backup` (pointing it back at
    /// itself) and walk from it again: the model of writing the saved last
    /// entry back through the temporary mapping and flushing the whole
    /// translation cache.  The hierarchy walked until now keeps all of its
    /// translations.
    pub fn leave_hierarchy(&mut self, backup: Frame)
        requires
            old(self).inv(),
            old(self).self_mapped(),
            old(self).stored(backup.number as int),
            old(self).level_at(backup.number as int) == 4,
            backup.number as int != old(self).root(),
        ensures
            final(self).inv(),
            final(self).self_mapped(),
            final(self).root() == backup.number as int,
            final(self).frames() =~= old(self).frames(),
            forall|f: int| final(self).level_at(f) == old(self).level_at(f),
            forall|f: int|
                f != backup.number as int ==> #[trigger] Mapper::unchanged_frame(
                    *old(self),
                    *final(self),
                    f,
                ),
            final(self).table_at(backup.number as int) == old(self).table_at(
                backup.number as int,
            ).update(511, pack_entry(backup.number, PRESENT | WRITABLE)),
            forall|n: int|
                0 <= n ==> #[trigger] final(self).resolve_from(old(self).root(), n) == old(
                    self,
                ).resolve_from(old(self).root(), n),
            forall|n: int|
                0 <= n ==> #[trigger] final(self).has_l1_path_from(old(self).root(), n) == old(
                    self,
                ).has_l1_path_from(old(self).root(), n),
            forall|n: int|
                0 <= n && old(self).has_l1_path_from(old(self).root(), n)
                    ==> #[trigger] final(self).l1_frame_from(old(self).root(), n) == old(
                    self,
                ).l1_frame_from(old(self).root(), n),
            forall|n: int|
                0 <= n && p4_index_spec(n) != 511 ==> #[trigger] final(self).translate_page_spec(n)
                    == old(self).resolve_from(backup.number as int, n),
            forall|n: int|
                0 <= n && p4_index_spec(n) != 511 ==> #[trigger] final(self).has_l1_path_from(
                    final(self).root(),
                    n,
                ) == old(self).has_l1_path_from(backup.number as int, n),
            forall|n: int|
                0 <= n && p4_index_spec(n) != 511 && old(self).has_l1_path_from(
                    backup.number as int,
                    n,
                ) ==> #[trigger] final(self).l1_frame_from(final(self).root(), n) == old(
                    self,
                ).l1_frame_from(backup.number as int, n),
    {
        let ghost pre = *old(self);
        let b = backup.number;
        let packed = (b << 12) | (PRESENT | WRITABLE);
        proof {
            assert(packed == pack_entry(b, PRESENT | WRITABLE)) by (bit_vector)
                requires
                    packed == (b << 12) | (PRESENT | WRITABLE),
            ;
        }
        self.write_entry(b, SELF_MAP_INDEX, packed);
        let ghost w = *self;
        self.p4_frame = b;
        proof {
            let post = *self;
            let bi = b as int;
            let rt = pre.root();
            Mapper::lemma_same_slots(w, post);
            assert forall|f: int| f != bi implies #[trigger] Mapper::unchanged_frame(
                pre,
                post,
                f,
            ) by {
                assert(Mapper::unchanged_frame(pre, w, f));
                assert(Mapper::unchanged_frame(w, post, f));
            };
            assert(Mapper::unchanged_frame(w, post, bi));
            assert(post.table_at(bi) == pre.table_at(bi).update(511, packed));
            assert(post.stored(bi) && post.level_at(bi) == pre.level_at(bi));
            crate::entry::lemma_present_writable_flags();
            crate::entry::lemma_entry_round_trip(b, PRESENT | WRITABLE);
            assert(entry_present(packed) && !entry_huge(packed) && entry_frame(packed) == b);
            assert(post.table_at(bi)[511] == packed);
            assert forall|f: int, k: int| post.stored(f) && 0 <= k < 512 implies #[trigger] post.entry_ok(
                f,
                k,
            ) by {
                if f == bi && k == 511 {
                    assert(post.stored(bi) && post.level_at(bi) == 4 && pre.level_at(bi) == 4);
                } else {
                    if f != bi {
                        assert(Mapper::unchanged_frame(pre, post, f));
                    }
                    assert(post.table_at(f)[k] == pre.table_at(f)[k]);
                    assert(pre.entry_ok(f, k));
                    let tg = entry_frame(pre.table_at(f)[k]) as int;
                    if tg != bi {
                        assert(Mapper::unchanged_frame(pre, post, tg));
                    }
                }
            };
            assert forall|f: int, k: int, g: int, l: int|
                {
                    (post.stored(f) && post.stored(g) && 0 <= k < 512 && 0 <= l < 512
                        && post.level_at(f) >= 2 && post.level_at(g) >= 2 && (
                    #[trigger] post.child_at(f, k)) is Some && (#[trigger] post.child_at(
                        g,
                        l,
                    )) is Some && post.child_at(f, k) == post.child_at(g, l) && post.level_at(
                        post.child_at(f, k)->0,
                    ) <= 3)
                } implies (f == g && k == l) by {
                let d = post.child_at(f, k)->0;
                let fk_new = f == bi && k == 511;
                let gl_new = g == bi && l == 511;
                if fk_new && gl_new {
                } else if fk_new || gl_new {
                    assert(d == bi && post.level_at(d) == pre.level_at(bi));
                    assert(false);
                } else {
                    if f != bi {
                        assert(Mapper::unchanged_frame(pre, post, f));
                    }
                    if g != bi {
                        assert(Mapper::unchanged_frame(pre, post, g));
                    }
                    assert(pre.child_at(f, k) == post.child_at(f, k));
                    assert(pre.child_at(g, l) == post.child_at(g, l));
                    if d == bi {
                        assert(post.level_at(d) == pre.level_at(d));
                    } else {
                        assert(Mapper::unchanged_frame(pre, post, d));
                    }
                }
            };
            assert(post.inv());
            assert(post.self_mapped());
            assert forall|f: int| post.level_at(f) == pre.level_at(f) by {
                if f != bi {
                    assert(Mapper::unchanged_frame(pre, post, f));
                }
            };
            assert(post.frames() =~= pre.frames()) by {
                assert forall|f: int| post.frames().contains(f) == pre.frames().contains(f) by {
                    if f != bi {
                        assert(Mapper::unchanged_frame(pre, post, f));
                    }
                };
            };
            assert forall|n: int| 0 <= n implies #[trigger] post.resolve_from(rt, n)
                == pre.resolve_from(rt, n) by {
                Mapper::lemma_walk_preserved_at(pre, post, rt, bi, n);
                if pre.has_l1_path_from(rt, n) && pre.l1_frame_from(rt, n) == bi {
                    Mapper::lemma_l1_frame_level(pre, rt, n);
                    assert(false);
                }
            };
            assert forall|n: int| 0 <= n implies #[trigger] post.has_l1_path_from(rt, n)
                == pre.has_l1_path_from(rt, n) by {
                Mapper::lemma_walk_preserved_at(pre, post, rt, bi, n);
            };
            assert forall|n: int|
                0 <= n && pre.has_l1_path_from(rt, n) implies #[trigger] post.l1_frame_from(rt, n)
                == pre.l1_frame_from(rt, n) by {
                Mapper::lemma_walk_preserved_at(pre, post, rt, bi, n);
            };
            assert forall|n: int| 0 <= n && p4_index_spec(n) != 511 implies {
                &&& #[trigger] post.translate_page_spec(n) == pre.resolve_from(bi, n)
            } by {
                Mapper::lemma_walk_preserved_self511(pre, post, bi, n);
            };
            assert forall|n: int| 0 <= n && p4_index_spec(n) != 511 implies #[trigger] post.has_l1_path_from(
                post.root(),
                n,
            ) == pre.has_l1_path_from(bi, n) by {
                Mapper::lemma_walk_preserved_self511(pre, post, bi, n);
            };
            assert forall|n: int|
                0 <= n && p4_index_spec(n) != 511 && pre.has_l1_path_from(
                    bi,
                    n,
                ) implies #[trigger] post.l1_frame_from(post.root(), n) == pre.l1_frame_from(
                bi,
                n,
            ) by {
                Mapper::lemma_walk_preserved_self511(pre, post, bi, n);
            };
        }
    }

    /// Free the table behind entry `index` of the table in `parent` when
    /// every one of its slots is unused: the entry is cleared and the
    /// table's frame leaves the store, handed back to the caller.  A table
    /// still holding entries stays put.  No translation changes: pages
    /// routed through an empty table resolved to nothing already.
    #[verifier::rlimit(100)]
    #[verifier::spinoff_prover]
    pub fn prune_table(&mut self, parent: u64, index: usize) -> (freed: Option<Frame>)
        requires
            old(self).inv(),
            old(self).stored(parent as int),
            2 <= old(self).level_at(parent as int) <= 4,
            old(self).level_at(parent as int) == 4 ==> index != 511,
            index < 512,
            old(self).on_walk_path(old(self).root(), parent as int),
            old(self).child_at(parent as int, index as int) is Some,
        ensures
            final(self).inv(),
            final(self).p4_frame == old(self).p4_frame,
            match freed {
                None => *final(self) == *old(self),
                Some(fr) => {
                    &&& fr.number as int == old(self).child_at(parent as int, index as int)->0
                    &&& fr.number < FRAME_LIMIT
                    &&& old(self).stored(fr.number as int)
                    &&& old(self).level_at(fr.number as int) == old(self).level_at(parent as int)
                        - 1
                    &&& !final(self).stored(fr.number as int)
                    &&& final(self).frames() =~= old(self).frames().remove(fr.number as int)
                    &&& final(self).table_at(parent as int) == old(self).table_at(
                        parent as int,
                    ).update(index as int, 0)
                    &&& forall|f: int|
                        f != parent as int && f != fr.number as int
                            ==> #[trigger] Mapper::unchanged_frame(*old(self), *final(self), f)
                    &&& final(self).child_at(parent as int, index as int) is None
                },
            },
            freed is None ==> final(self).child_at(parent as int, index as int) == old(
                self,
            ).child_at(parent as int, index as int),
            forall|f: int|
                final(self).stored(f) ==> old(self).stored(f) && final(self).level_at(f) == old(
                    self,
                ).level_at(f),
            forall|rr: int, n: int|
                old(self).stored(rr) && old(self).level_at(rr) == 4 && page_valid(n)
                    && p4_index_spec(n) != 511 ==> #[trigger] final(self).resolve_from(rr, n)
                    == old(self).resolve_from(rr, n) && final(self).mappable_from(rr, n) == old(
                    self,
                ).mappable_from(rr, n),
            forall|rr: int, n: int|
                old(self).stored(rr) && old(self).level_at(rr) == 4 && rr != old(self).root() && 0
                    <= n && p4_index_spec(n) != 511 ==> #[trigger] final(self).has_l1_path_from(
                    rr,
                    n,
                ) == old(self).has_l1_path_from(rr, n),
            forall|rr: int, n: int|
                old(self).stored(rr) && old(self).level_at(rr) == 4 && rr != old(self).root() && 0
                    <= n && p4_index_spec(n) != 511 && old(self).has_l1_path_from(rr, n)
                    ==> #[trigger] final(self).l1_frame_from(rr, n) == old(self).l1_frame_from(
                    rr,
                    n,
                ),
            forall|f: int|
                old(self).stored(f) && old(self).level_at(f) == 4 ==> final(self).stored(f),
            forall|f: int|
                old(self).stored(f) && old(self).level_at(f) == 4 && f != old(self).root()
                    ==> final(self).table_at(f) == old(self).table_at(f),
            forall|f: int|
                old(self).stored(f) && old(self).level_at(f) == 1 && final(self).stored(f)
                    ==> final(self).table_at(f) == old(self).table_at(f),
            final(self).table_at(final(self).root())[511] == old(self).table_at(
                old(self).root(),
            )[511],
    {
        let ghost pre = *old(self);
        let ghost pa = parent as int;
        let e = self.read_entry(parent, index);
        proof {
            assert(pre.entry_ok(pa, index as int));
        }
        let c = (e & crate::entry::ADDR_MASK) >> 12;
        proof {
            assert(c == entry_frame(e) && c < 0x100_0000_0000) by (bit_vector)
                requires
                    c == (e & crate::entry::ADDR_MASK) >> 12,
            ;
            assert(pre.child_at(pa, index as int) == Some(c as int));
            assert(pre.stored(c as int) && pre.level_at(c as int) == pre.level_at(pa) - 1);
        }
        if !self.table_is_empty(c) {
            return None;
        }
        self.write_entry(parent, index, 0);
        let ghost mid = *self;
        proof {
            let ci = c as int;
            crate::entry::lemma_zero_entry();
            assert(Mapper::unchanged_frame(pre, mid, ci));
            // The intermediate store keeps the invariant: a cleared slot
            // carries no obligations.
            assert forall|f: int, kk: int| mid.stored(f) && 0 <= kk < 512 implies #[trigger] mid.entry_ok(
                f,
                kk,
            ) by {
                if f == pa && kk == index as int {
                    assert(mid.table_at(f)[kk] == 0);
                } else {
                    if f != pa {
                        assert(Mapper::unchanged_frame(pre, mid, f));
                    }
                    assert(mid.table_at(f)[kk] == pre.table_at(f)[kk]);
                    assert(pre.entry_ok(f, kk));
                    let t = entry_frame(pre.table_at(f)[kk]) as int;
                    if t != pa {
                        assert(Mapper::unchanged_frame(pre, mid, t));
                    }
                }
            };
            assert forall|f: int, kk: int, g: int, l: int|
                {
                    (mid.stored(f) && mid.stored(g) && 0 <= kk < 512 && 0 <= l < 512
                        && mid.level_at(f) >= 2 && mid.level_at(g) >= 2 && (#[trigger] mid.child_at(
                        f,
                        kk,
                    )) is Some && (#[trigger] mid.child_at(g, l)) is Some && mid.child_at(f, kk)
                        == mid.child_at(g, l) && mid.level_at(mid.child_at(f, kk)->0) <= 3)
                } implies (f == g && kk == l) by {
                assert(!(f == pa && kk == index as int) && !(g == pa && l == index as int));
                if f != pa {
                    assert(Mapper::unchanged_frame(pre, mid, f));
                }
                if g != pa {
                    assert(Mapper::unchanged_frame(pre, mid, g));
                }
                assert(pre.child_at(f, kk) == mid.child_at(f, kk));
                assert(pre.child_at(g, l) == mid.child_at(g, l));
                let d = mid.child_at(f, kk)->0;
                if d == pa {
                    assert(mid.level_at(d) == pre.level_at(d));
                } else {
                    assert(Mapper::unchanged_frame(pre, mid, d));
                }
            };
            assert(mid.stored(mid.root()) && mid.level_at(mid.root()) == 4) by {
                if pre.root() != pa {
                    assert(Mapper::unchanged_frame(pre, mid, pre.root()));
                }
            };
            assert(mid.inv());
            // The freed table is pointed at by nothing any more.
            assert(Mapper::unpointed(mid, ci)) by {
                assert forall|g: int, j: int|
                    mid.stored(g) && mid.level_at(g) >= 2 && 0 <= j < 512 implies #[trigger] mid.child_at(
                    g,
                    j,
                ) != Some(ci) by {
                    if mid.child_at(g, j) == Some(ci) {
                        if g != pa {
                            assert(Mapper::unchanged_frame(pre, mid, g));
                        }
                        assert(!(g == pa && j == index as int));
                        assert(pre.child_at(g, j) == Some(ci));
                        assert(pre.child_at(pa, index as int) == Some(ci));
                        assert(pre.level_at(ci) <= 3);
                        assert(g == pa && j == index as int);
                        assert(false);
                    }
                };
            };
        }
        self.remove_slot(c);
        proof {
            let post = *self;
            let ci = c as int;
            assert forall|f: int, kk: int| post.stored(f) && 0 <= kk < 512 implies #[trigger] post.entry_ok(
                f,
                kk,
            ) by {
                assert(Mapper::unchanged_frame(mid, post, f));
                assert(mid.entry_ok(f, kk));
                let t = entry_frame(mid.table_at(f)[kk]) as int;
                if t != ci {
                    assert(Mapper::unchanged_frame(mid, post, t));
                } else {
                    let e2 = mid.table_at(f)[kk];
                    if entry_present(e2) && !entry_huge(e2) && mid.level_at(f) >= 2 {
                        assert(mid.child_at(f, kk) == Some(ci));
                        assert(false);
                    }
                }
            };
            assert forall|f: int, kk: int, g: int, l: int|
                {
                    (post.stored(f) && post.stored(g) && 0 <= kk < 512 && 0 <= l < 512
                        && post.level_at(f) >= 2 && post.level_at(g) >= 2 && (
                    #[trigger] post.child_at(f, kk)) is Some && (#[trigger] post.child_at(
                        g,
                        l,
                    )) is Some && post.child_at(f, kk) == post.child_at(g, l) && post.level_at(
                        post.child_at(f, kk)->0,
                    ) <= 3)
                } implies (f == g && kk == l) by {
                assert(Mapper::unchanged_frame(mid, post, f));
                assert(Mapper::unchanged_frame(mid, post, g));
                assert(mid.child_at(f, kk) == post.child_at(f, kk));
                assert(mid.child_at(g, l) == post.child_at(g, l));
                let d = post.child_at(f, kk)->0;
                if d != ci {
                    assert(Mapper::unchanged_frame(mid, post, d));
                } else {
                    assert(mid.child_at(f, kk) == Some(ci));
                    assert(false);
                }
            };
            assert(post.stored(post.root()) && post.level_at(post.root()) == 4) by {
                assert(post.root() != ci);
                assert(Mapper::unchanged_frame(mid, post, post.root()));
            };
            assert(post.inv());
            assert forall|f: int|
                f != pa && f != ci implies #[trigger] Mapper::unchanged_frame(pre, post, f) by {
                assert(Mapper::unchanged_frame(pre, mid, f));
                assert(Mapper::unchanged_frame(mid, post, f));
            };
            assert(post.frames() =~= pre.frames().remove(ci)) by {
                assert forall|g: int| post.frames().contains(g) == pre.frames().remove(ci).contains(
                    g,
                ) by {
                    if g != ci {
                        assert(post.frames().contains(g) == mid.frames().contains(g));
                        if g != pa {
                            assert(Mapper::unchanged_frame(pre, mid, g));
                        }
                    }
                };
            };
            assert(Mapper::unchanged_frame(mid, post, pa));
            assert forall|rr: int, n: int|
                pre.stored(rr) && pre.level_at(rr) == 4 && page_valid(n) && p4_index_spec(n)
                    != 511 implies #[trigger] post.resolve_from(rr, n) == pre.resolve_from(rr, n)
                && post.mappable_from(rr, n) == pre.mappable_from(rr, n) by {
                Mapper::lemma_walk_preserved_prune_at(pre, mid, rr, pa, index as int, ci, n);
                assert(mid.stored(rr) && mid.level_at(rr) == 4) by {
                    if rr != pa {
                        assert(Mapper::unchanged_frame(pre, mid, rr));
                    }
                };
                assert(rr != ci);
                Mapper::lemma_walk_preserved_at(mid, post, rr, ci, n);
            };
            assert forall|rr: int, n: int|
                pre.stored(rr) && pre.level_at(rr) == 4 && rr != pre.root() && 0 <= n
                    && p4_index_spec(n) != 511 implies #[trigger] post.has_l1_path_from(rr, n)
                == pre.has_l1_path_from(rr, n) by {
                Mapper::lemma_other_root_preserved(pre, mid, rr, pa, n);
                assert(mid.stored(rr) && mid.level_at(rr) == 4) by {
                    assert(Mapper::unchanged_frame(pre, mid, rr));
                };
                assert(rr != ci);
                Mapper::lemma_walk_preserved_at(mid, post, rr, ci, n);
            };
            assert forall|rr: int, n: int|
                pre.stored(rr) && pre.level_at(rr) == 4 && rr != pre.root() && 0 <= n
                    && p4_index_spec(n) != 511 && pre.has_l1_path_from(
                    rr,
                    n,
                ) implies #[trigger] post.l1_frame_from(rr, n) == pre.l1_frame_from(rr, n) by {
                Mapper::lemma_other_root_preserved(pre, mid, rr, pa, n);
                assert(mid.stored(rr) && mid.level_at(rr) == 4) by {
                    assert(Mapper::unchanged_frame(pre, mid, rr));
                };
                assert(rr != ci);
                Mapper::lemma_walk_preserved_at(mid, post, rr, ci, n);
            };
            assert forall|f: int|
                pre.stored(f) && pre.level_at(f) == 4 && f != pre.root() implies post.table_at(f)
                == pre.table_at(f) by {
                assert(f != ci);
                if f != pa {
                    assert(Mapper::unchanged_frame(pre, mid, f));
                }
                assert(Mapper::unchanged_frame(mid, post, f));
            };
            assert forall|f: int|
                pre.stored(f) && pre.level_at(f) == 1 && post.stored(f) implies post.table_at(f)
                == pre.table_at(f) by {
                assert(f != pa);
                assert(Mapper::unchanged_frame(pre, mid, f));
                assert(Mapper::unchanged_frame(mid, post, f));
            };
            assert(post.table_at(post.root())[511] == pre.table_at(pre.root())[511]) by {
                assert(post.root() != ci);
                if pre.root() != pa {
                    assert(Mapper::unchanged_frame(pre, mid, pre.root()));
                }
                assert(Mapper::unchanged_frame(mid, post, pre.root()));
            };
            assert forall|f: int| post.stored(f) implies pre.stored(f) && post.level_at(f)
                == pre.level_at(f) by {
                assert(f != ci);
                assert(Mapper::unchanged_frame(mid, post, f));
                if f != pa {
                    assert(Mapper::unchanged_frame(pre, mid, f));
                }
            };
            assert forall|f: int|
                pre.stored(f) && pre.level_at(f) == 4 implies post.stored(f) by {
                assert(f != ci);
                if f != pa {
                    assert(Mapper::unchanged_frame(pre, mid, f));
                }
                assert(Mapper::unchanged_frame(mid, post, f));
            };
        }
        Some(Frame { number: c })
    }

    /// Tear down the now-unused tables of `page`'s path, deepest first:
    /// each of the level-1, level-2 and level-3 tables is freed if all of
    /// its slots are unused, stopping at the first table still in use or
    /// once `room` frames have been freed.  The freed frames are handed
    /// back; afterwards mapping the page again needs exactly as many fresh
    /// tables as were freed.
    #[verifier::rlimit(100)]
    #[verifier::spinoff_prover]
    pub fn prune_path(&mut self, page: Page, room: usize) -> (freed: (
        Option<Frame>,
        Option<Frame>,
        Option<Frame>,
    ))
        requires
            old(self).inv(),
            page_valid(page.number as int),
            p4_index_spec(page.number as int) != 511,
            old(self).has_l1_path_from(old(self).root(), page.number as int),
            old(self).mappable(page.number as int),
        ensures
            final(self).inv(),
            final(self).p4_frame == old(self).p4_frame,
            freed.1 is Some ==> freed.0 is Some,
            freed.2 is Some ==> freed.1 is Some,
            ({
                let count: int = (if freed.0 is Some {
                    1int
                } else {
                    0int
                }) + (if freed.1 is Some {
                    1int
                } else {
                    0int
                }) + (if freed.2 is Some {
                    1int
                } else {
                    0int
                });
                &&& count <= room
                &&& final(self).tables_needed(page.number as int) == count
            }),
            final(self).mappable(page.number as int),
            freed.0 matches Some(fr) ==> old(self).stored(fr.number as int) && !final(self).stored(
                fr.number as int,
            ) && fr.number < FRAME_LIMIT,
            freed.1 matches Some(fr) ==> old(self).stored(fr.number as int) && !final(self).stored(
                fr.number as int,
            ) && fr.number < FRAME_LIMIT,
            freed.2 matches Some(fr) ==> old(self).stored(fr.number as int) && !final(self).stored(
                fr.number as int,
            ) && fr.number < FRAME_LIMIT,
            freed.0 is Some && freed.1 is Some ==> freed.0->Some_0.number != freed.1->Some_0.number,
            freed.0 is Some && freed.2 is Some ==> freed.0->Some_0.number != freed.2->Some_0.number,
            freed.1 is Some && freed.2 is Some ==> freed.1->Some_0.number != freed.2->Some_0.number,
            forall|f: int|
                final(self).stored(f) ==> old(self).stored(f) && final(self).level_at(f) == old(
                    self,
                ).level_at(f),
            forall|f: int|
                old(self).stored(f) && old(self).level_at(f) == 4 ==> final(self).stored(f),
            forall|f: int|
                old(self).stored(f) && old(self).level_at(f) == 1 && f != old(self).l1_frame_from(
                    old(self).root(),
                    page.number as int,
                ) ==> final(self).stored(f),
            forall|rr: int, n: int|
                old(self).stored(rr) && old(self).level_at(rr) == 4 && page_valid(n)
                    && p4_index_spec(n) != 511 ==> #[trigger] final(self).resolve_from(rr, n)
                    == old(self).resolve_from(rr, n) && final(self).mappable_from(rr, n) == old(
                    self,
                ).mappable_from(rr, n),
            forall|rr: int, n: int|
                old(self).stored(rr) && old(self).level_at(rr) == 4 && rr != old(self).root() && 0
                    <= n && p4_index_spec(n) != 511 ==> #[trigger] final(self).has_l1_path_from(
                    rr,
                    n,
                ) == old(self).has_l1_path_from(rr, n),
            forall|rr: int, n: int|
                old(self).stored(rr) && old(self).level_at(rr) == 4 && rr != old(self).root() && 0
                    <= n && p4_index_spec(n) != 511 && old(self).has_l1_path_from(rr, n)
                    ==> #[trigger] final(self).l1_frame_from(rr, n) == old(self).l1_frame_from(
                    rr,
                    n,
                ),
            forall|f: int|
                old(self).stored(f) && old(self).level_at(f) == 4 && f != old(self).root()
                    ==> final(self).table_at(f) == old(self).table_at(f),
            forall|f: int|
                old(self).stored(f) && old(self).level_at(f) == 1 && final(self).stored(f)
                    ==> final(self).table_at(f) == old(self).table_at(f),
            final(self).table_at(final(self).root())[511] == old(self).table_at(
                old(self).root(),
            )[511],
    {
        let ghost s0 = *old(self);
        let ghost pn = page.number as int;
        let ghost rt = s0.root();
        let ghost i4 = p4_index_spec(pn);
        let ghost i3 = p3_index_spec(pn);
        let ghost i2 = p2_index_spec(pn);
        let e4 = self.read_entry(self.p4_frame, page.p4_index());
        proof {
            assert(s0.entry_ok(rt, i4));
        }
        let f3 = (e4 & crate::entry::ADDR_MASK) >> 12;
        proof {
            assert(f3 == entry_frame(e4)) by (bit_vector)
                requires
                    f3 == (e4 & crate::entry::ADDR_MASK) >> 12,
            ;
            assert(s0.child_at(rt, i4) == Some(f3 as int));
            assert(s0.stored(f3 as int) && s0.level_at(f3 as int) == 3);
        }
        let e3 = self.read_entry(f3, page.p3_index());
        proof {
            assert(s0.entry_ok(f3 as int, i3));
        }
        let f2 = (e3 & crate::entry::ADDR_MASK) >> 12;
        proof {
            assert(f2 == entry_frame(e3)) by (bit_vector)
                requires
                    f2 == (e3 & crate::entry::ADDR_MASK) >> 12,
            ;
            assert(s0.child_at(f3 as int, i3) == Some(f2 as int));
            assert(s0.stored(f2 as int) && s0.level_at(f2 as int) == 2);
            assert(s0.on_walk_path(rt, f2 as int)) by {
                assert(0 <= i4 < 511);
            };
            assert(s0.l1_frame_from(rt, pn) == s0.child_at(f2 as int, i2)->0);
        }
        proof {
            crate::entry::lemma_present_nonzero(e4);
            crate::entry::lemma_present_nonzero(e3);
            let e2v = s0.table_at(f2 as int)[i2];
            assert(entry_present(e2v) && !entry_huge(e2v));
            crate::entry::lemma_present_nonzero(e2v);
            assert(s0.tables_needed(pn) == 0);
        }
        if room == 0 {
            return (None, None, None);
        }
        let freed1 = self.prune_table(f2, page.p2_index());
        let ghost s1 = *self;
        if freed1.is_none() {
            proof {
                assert(s1 == s0);
            }
            return (None, None, None);
        }
        proof {
            assert(Mapper::unchanged_frame(s0, s1, rt));
            assert(Mapper::unchanged_frame(s0, s1, f3 as int));
            assert(s1.table_at(rt)[i4] == e4);
            assert(s1.table_at(f3 as int)[i3] == e3);
            assert(s1.table_at(f2 as int)[i2] == 0);
            assert(s1.tables_needed(pn) == 1);
            assert(freed1->Some_0.number as int == s0.l1_frame_from(rt, pn));
            assert forall|f: int|
                s0.stored(f) && s0.level_at(f) == 1 && f != s0.l1_frame_from(
                    rt,
                    pn,
                ) implies s1.stored(f) by {
                assert(f != f2 as int);
                assert(Mapper::unchanged_frame(s0, s1, f));
            };
        }
        if room == 1 {
            return (freed1, None, None);
        }
        proof {
            assert(s1.stored(f3 as int) && s1.level_at(f3 as int) == 3) by {
                assert(Mapper::unchanged_frame(s0, s1, f3 as int));
            };
            assert(s1.child_at(f3 as int, i3) == Some(f2 as int)) by {
                assert(Mapper::unchanged_frame(s0, s1, f3 as int));
            };
            assert(s1.on_walk_path(s1.root(), f3 as int)) by {
                assert(0 <= i4 < 511);
                assert(Mapper::unchanged_frame(s0, s1, rt));
                assert(s1.child_at(rt, i4) == Some(f3 as int));
            };
        }
        let freed2 = self.prune_table(f3, page.p3_index());
        let ghost s2 = *self;
        if freed2.is_none() {
            proof {
                assert(s2 == s1);
            }
            return (freed1, None, None);
        }
        proof {
            assert(Mapper::unchanged_frame(s1, s2, rt));
            assert(s2.table_at(rt)[i4] == e4);
            assert(s2.table_at(f3 as int)[i3] == 0);
            assert(s2.tables_needed(pn) == 2);
            assert forall|f: int|
                s0.stored(f) && s0.level_at(f) == 1 && f != s0.l1_frame_from(
                    rt,
                    pn,
                ) implies s2.stored(f) by {
                assert(f != f2 as int);
                assert(Mapper::unchanged_frame(s0, s1, f));
                assert(f != f3 as int);
                assert(s1.level_at(f) == 1);
                assert(Mapper::unchanged_frame(s1, s2, f));
            };
        }
        if room == 2 {
            return (freed1, freed2, None);
        }
        proof {
            assert(s2.stored(rt) && s2.level_at(rt) == 4);
            assert(s2.child_at(rt, i4) == Some(f3 as int)) by {
                if rt != f3 as int {
                    assert(Mapper::unchanged_frame(s1, s2, rt));
                    assert(Mapper::unchanged_frame(s0, s1, rt));
                }
            };
            assert(s2.on_walk_path(s2.root(), rt));
        }
        let freed3 = self.prune_table(self.p4_frame, page.p4_index());
        proof {
            let s3 = *self;
            if freed3 is Some {
                assert(s3.table_at(rt)[i4] == 0);
                assert(s3.tables_needed(pn) == 3);
            } else {
                assert(s3 == s2);
            }
            assert forall|f: int|
                s0.stored(f) && s0.level_at(f) == 1 && f != s0.l1_frame_from(
                    rt,
                    pn,
                ) implies s3.stored(f) by {
                assert(s2.stored(f));
                assert(s2.level_at(f) == 1);
                if freed3 is Some {
                    assert(f != rt && f != f3 as int);
                    assert(Mapper::unchanged_frame(s2, s3, f));
                }
            };
        }
        (freed1, freed2, freed3)
    }

    /// Adopt the given unused frame as the root of a fresh hierarchy: its
    /// contents become a zeroed level-4 table whose last slot points back at
    /// the frame itself, re-establishing the recursive-mapping invariant for
    /// the new hierarchy.  In the running kernel this is done by mapping the
    /// frame at the temporary page and writing through that mapping; the
    /// active hierarchy's own translations are untouched.
    pub fn install_root_table(&mut self, frame: Frame)
        requires
            old(self).inv(),
            old(self).self_mapped(),
            !old(self).stored(frame.number as int),
            frame.number < FRAME_LIMIT,
        ensures
            final(self).inv(),
            final(self).self_mapped(),
            final(self).p4_frame == old(self).p4_frame,
            final(self).frames() =~= old(self).frames().insert(frame.number as int),
            final(self).stored(frame.number as int),
            final(self).level_at(frame.number as int) == 4,
            final(self).child_at(frame.number as int, 511) == Some(frame.number as int),
            forall|j: int|
                0 <= j < 511 ==> final(self).table_at(frame.number as int)[j] == 0,
            final(self).table_at(frame.number as int)[511] == pack_entry(
                frame.number,
                PRESENT | WRITABLE,
            ),
            forall|f: int|
                f != frame.number as int ==> #[trigger] Mapper::unchanged_frame(
                    *old(self),
                    *final(self),
                    f,
                ),
            forall|n: int|
                0 <= n ==> #[trigger] final(self).translate_page_spec(n) == old(
                    self,
                ).translate_page_spec(n),
            forall|n: int|
                0 <= n ==> #[trigger] final(self).has_l1_path_from(final(self).root(), n) == old(
                    self,
                ).has_l1_path_from(old(self).root(), n),
            forall|n: int|
                0 <= n && old(self).has_l1_path_from(old(self).root(), n)
                    ==> #[trigger] final(self).l1_frame_from(final(self).root(), n) == old(
                    self,
                ).l1_frame_from(old(self).root(), n),
            forall|n: int|
                0 <= n ==> #[trigger] final(self).mappable(n) == old(self).mappable(n),
    {
        let ghost pre = *old(self);
        let c = frame.number;
        self.push_slot(c, Ghost(4nat));
        let ghost mid = *self;
        let packed = (c << 12) | (PRESENT | WRITABLE);
        proof {
            assert(packed == pack_entry(c, PRESENT | WRITABLE)) by (bit_vector)
                requires
                    packed == (c << 12) | (PRESENT | WRITABLE),
            ;
        }
        self.write_entry(c, SELF_MAP_INDEX, packed);
        proof {
            let post = *self;
            let ci = c as int;
            crate::entry::lemma_present_writable_flags();
            crate::entry::lemma_entry_round_trip(c, PRESENT | WRITABLE);
            crate::entry::lemma_zero_entry();
            assert forall|f: int| f != ci implies #[trigger] Mapper::unchanged_frame(
                pre,
                post,
                f,
            ) by {
                assert(Mapper::unchanged_frame(pre, mid, f));
                assert(Mapper::unchanged_frame(mid, post, f));
            };
            assert(post.stored(ci) && post.level_at(ci) == 4);
            assert(post.table_at(ci)[511] == packed);
            assert(entry_present(packed) && !entry_huge(packed) && entry_frame(packed) == c);
            assert forall|f: int, k: int| post.stored(f) && 0 <= k < 512 implies #[trigger] post.entry_ok(
                f,
                k,
            ) by {
                if f == ci {
                    if k != 511 {
                        assert(post.table_at(f)[k] == 0);
                    }
                } else {
                    assert(Mapper::unchanged_frame(pre, post, f));
                    assert(pre.entry_ok(f, k));
                    let t = entry_frame(pre.table_at(f)[k]) as int;
                    if t != ci {
                        assert(Mapper::unchanged_frame(pre, post, t));
                    }
                }
            };
            assert forall|f: int, k: int, g: int, l: int|
                {
                    (post.stored(f) && post.stored(g) && 0 <= k < 512 && 0 <= l < 512
                        && post.level_at(f) >= 2 && post.level_at(g) >= 2 && (
                    #[trigger] post.child_at(f, k)) is Some && (#[trigger] post.child_at(
                        g,
                        l,
                    )) is Some && post.child_at(f, k) == post.child_at(g, l) && post.level_at(
                        post.child_at(f, k)->0,
                    ) <= 3)
                } implies (f == g && k == l) by {
                let d = post.child_at(f, k)->0;
                if f == ci {
                    if k != 511 {
                        assert(post.child_at(f, k) is None);
                    }
                    assert(k == 511 && d == ci);
                    assert(post.level_at(d) == 4);
                } else {
                    assert(Mapper::unchanged_frame(pre, post, f));
                    if g == ci {
                        if l != 511 {
                            assert(post.child_at(g, l) is None);
                        }
                        assert(post.level_at(d) == 4);
                    } else {
                        assert(Mapper::unchanged_frame(pre, post, g));
                        if d == ci {
                            assert(pre.entry_ok(f, k));
                            assert(false);
                        }
                        assert(pre.child_at(f, k) == post.child_at(f, k));
                        assert(pre.child_at(g, l) == post.child_at(g, l));
                        if d != ci {
                            assert(Mapper::unchanged_frame(pre, post, d));
                        }
                    }
                }
            };
            assert(Mapper::unchanged_frame(pre, post, pre.root()));
            assert(post.inv());
            assert forall|n: int| 0 <= n implies #[trigger] post.translate_page_spec(n)
                == pre.translate_page_spec(n) by {
                Mapper::lemma_walk_preserved_at(pre, post, pre.root(), ci, n);
            };
            assert forall|n: int| 0 <= n implies #[trigger] post.has_l1_path_from(post.root(), n)
                == pre.has_l1_path_from(pre.root(), n) by {
                Mapper::lemma_walk_preserved_at(pre, post, pre.root(), ci, n);
            };
            assert forall|n: int|
                0 <= n && pre.has_l1_path_from(pre.root(), n) implies #[trigger] post.l1_frame_from(
                post.root(),
                n,
            ) == pre.l1_frame_from(pre.root(), n) by {
                Mapper::lemma_walk_preserved_at(pre, post, pre.root(), ci, n);
            };
            assert forall|n: int| 0 <= n implies #[trigger] post.mappable(n) == pre.mappable(
                n,
            ) by {
                Mapper::lemma_walk_preserved_at(pre, post, pre.root(), ci, n);
            };
        }
    }

    /// Map `page` to `frame` with the given flags (the present bit is
    /// forced on), creating missing intermediate tables from the allocator.
    /// The target level-1 slot must be unused: mapping over an existing
    /// mapping is a programming error.  Every other page keeps its
    /// translation and its mappability, in every hierarchy of the store,
    /// except for pages routed through the reserved self-map slot.
    #[verifier::rlimit(100)]
    #[verifier::spinoff_prover]
    pub fn map_to<A: FrameAllocator>(
        &mut self,
        page: Page,
        frame: Frame,
        flags: EntryFlags,
        allocator: &mut A,
    )
        requires
            old(self).inv(),
            page_valid(page.number as int),
            p4_index_spec(page.number as int) != 511,
            old(self).mappable(page.number as int),
            frame.number < FRAME_LIMIT,
            flags.wf(),
            old(allocator).inv(),
            old(allocator).available().disjoint(old(self).frames()),
            forall|m: int| old(allocator).available().contains(m) ==> 0 <= m < FRAME_LIMIT,
            old(allocator).available().len() >= old(self).tables_needed(page.number as int),
        ensures
            final(self).inv(),
            final(self).p4_frame == old(self).p4_frame,
            final(allocator).inv(),
            final(allocator).available().disjoint(final(self).frames()),
            forall|m: int| final(allocator).available().contains(m) ==> 0 <= m < FRAME_LIMIT,
            final(allocator).available().subset_of(old(allocator).available()),
            final(allocator).available().len() >= old(allocator).available().len() - old(
                self,
            ).tables_needed(page.number as int),
            final(self).translate_page_spec(page.number as int) == Some(frame.number as int),
            final(self).has_l1_path_from(final(self).root(), page.number as int),
            final(self).table_at(
                final(self).l1_frame_from(final(self).root(), page.number as int),
            )[p1_index_spec(page.number as int)] == pack_entry(frame.number, flags.bits),
            forall|f: int|
                old(self).stored(f) ==> final(self).stored(f) && final(self).level_at(f) == old(
                    self,
                ).level_at(f),
            forall|f: int|
                final(self).stored(f) ==> old(self).stored(f) || old(
                    allocator,
                ).available().contains(f),
            forall|f: int|
                final(self).stored(f) && !old(self).stored(f) ==> final(self).level_at(f) <= 3,
            forall|f: int|
                old(self).stored(f) && old(self).level_at(f) == 4 && f != old(self).root()
                    ==> final(self).table_at(f) == old(self).table_at(f),
            final(self).table_at(final(self).root())[511] == old(self).table_at(
                old(self).root(),
            )[511],
            forall|rr: int, n: int|
                old(self).stored(rr) && old(self).level_at(rr) == 4 && page_valid(n)
                    && p4_index_spec(n) != 511 && n != page.number as int
                    ==> #[trigger] final(self).resolve_from(rr, n) == old(self).resolve_from(rr, n)
                    && final(self).mappable_from(rr, n) == old(self).mappable_from(rr, n),
            forall|rr: int, n: int|
                old(self).stored(rr) && old(self).level_at(rr) == 4 && rr != old(self).root() && 0
                    <= n && p4_index_spec(n) != 511 ==> #[trigger] final(self).has_l1_path_from(
                    rr,
                    n,
                ) == old(self).has_l1_path_from(rr, n),
            forall|rr: int, n: int|
                old(self).stored(rr) && old(self).level_at(rr) == 4 && rr != old(self).root() && 0
                    <= n && p4_index_spec(n) != 511 && old(self).has_l1_path_from(rr, n)
                    ==> #[trigger] final(self).l1_frame_from(rr, n) == old(self).l1_frame_from(
                    rr,
                    n,
                ),
            forall|rr: int, n: int|
                old(self).stored(rr) && old(self).level_at(rr) == 4 && rr != old(self).root() && 0
                    <= n && p4_index_spec(n) != 511 ==> #[trigger] final(self).resolve_from(rr, n)
                    == old(self).resolve_from(rr, n) && final(self).mappable_from(rr, n) == old(
                    self,
                ).mappable_from(rr, n),
            forall|q: int|
                0 <= q && p4_index_spec(q) != 511 && old(self).has_l1_path_from(
                    old(self).root(),
                    q,
                ) ==> #[trigger] final(self).has_l1_path_from(final(self).root(), q)
                    && final(self).l1_frame_from(final(self).root(), q) == old(
                    self,
                ).l1_frame_from(old(self).root(), q),
            forall|q: int|
                #![trigger final(self).table_at(final(self).l1_frame_from(final(self).root(), q))]
                #![trigger old(self).table_at(old(self).l1_frame_from(old(self).root(), q))]
                page_valid(q) && p4_index_spec(q) != 511 && q != page.number as int && old(
                    self,
                ).has_l1_path_from(old(self).root(), q) ==> final(self).table_at(
                    final(self).l1_frame_from(final(self).root(), q),
                )[p1_index_spec(q)] == old(self).table_at(
                    old(self).l1_frame_from(old(self).root(), q),
                )[p1_index_spec(q)],
    {
        let ghost s0 = *old(self);
        let ghost pn = page.number as int;
        let ghost rt = s0.root();
        let ghost i4 = p4_index_spec(pn);
        let ghost i3 = p3_index_spec(pn);
        let ghost i2 = p2_index_spec(pn);
        let ghost i1 = p1_index_spec(pn);
        let ghost created1 = s0.table_at(rt)[i4] == 0;
        proof {
            allocator.available_finite();
            if s0.tables_needed(pn) >= 1 {
                assert(!old(allocator).available().is_empty()) by {
                    assert(Set::<int>::empty().len() == 0);
                };
            }
        }
        proof {
            assert(s0.on_walk_path(rt, rt));
        }
        let p3f = self.next_table_create(self.p4_frame, page.p4_index(), allocator);
        let ghost s1 = *self;
        let ghost a1 = *allocator;
        proof {
            allocator.available_finite();
            assert(s1.child_at(rt, i4) == Some(p3f as int));
            if created1 {
                assert(s1.table_at(p3f as int)[i3] == 0);
                assert(a1.available().len() >= old(allocator).available().len() - 1);
            } else {
                assert(s1 == s0 && a1 == *old(allocator));
                assert(s0.mappable_from(rt, pn));
            }
        }
        let ghost created2 = s1.table_at(p3f as int)[i3] == 0;
        proof {
            // Budget: a frame is still available whenever the next entry is
            // unused.
            if created2 {
                if created1 {
                    assert(s0.tables_needed(pn) == 3);
                    assert(a1.available().len() >= 2);
                } else {
                    assert(s0.tables_needed(pn) >= 2);
                }
                assert(!a1.available().is_empty()) by {
                    assert(Set::<int>::empty().len() == 0);
                };
            } else {
                assert(!created1);
                assert(s1.mappable_from(rt, pn));
                let e3 = s1.table_at(p3f as int)[i3];
                assert(entry_present(e3) && !entry_huge(e3));
            }
        }
        proof {
            assert(s1.on_walk_path(rt, p3f as int)) by {
                assert(0 <= i4 < 511);
                assert(s1.child_at(rt, i4) == Some(p3f as int));
                assert(s1.level_at(p3f as int) == 3);
            };
        }
        let p2f = self.next_table_create(p3f, page.p3_index(), allocator);
        let ghost s2 = *self;
        let ghost a2 = *allocator;
        proof {
            allocator.available_finite();
            assert(s2.child_at(p3f as int, i3) == Some(p2f as int));
            assert(rt != p3f as int && rt != p2f as int);
            assert(Mapper::unchanged_frame(s1, s2, rt) || s2 == s1);
            assert(s2.child_at(rt, i4) == Some(p3f as int));
            if created2 {
                assert(s2.table_at(p2f as int)[i2] == 0);
            }
        }
        let ghost created3 = s2.table_at(p2f as int)[i2] == 0;
        proof {
            if created3 {
                if created2 {
                    assert(a2.available().len() >= 1) by {
                        if created1 {
                            assert(s0.tables_needed(pn) == 3);
                        } else {
                            assert(s0.tables_needed(pn) == 2);
                        }
                    };
                } else {
                    assert(!created1 && !created2);
                    assert(s2 == s1 && s1 == s0);
                    assert(s0.tables_needed(pn) == 1);
                }
                assert(!a2.available().is_empty()) by {
                    assert(Set::<int>::empty().len() == 0);
                };
            } else {
                assert(!created1 && !created2);
                assert(s2.mappable_from(rt, pn));
                let e2 = s2.table_at(p2f as int)[i2];
                assert(entry_present(e2) && !entry_huge(e2));
            }
        }
        proof {
            assert(s2.on_walk_path(rt, p2f as int)) by {
                assert(0 <= i4 < 511);
                assert(s2.child_at(rt, i4) == Some(p3f as int));
                assert(s2.child_at(p3f as int, i3) == Some(p2f as int));
                assert(s2.level_at(p2f as int) == 2);
            };
        }
        let p1f = self.next_table_create(p2f, page.p2_index(), allocator);
        let ghost s3 = *self;
        let ghost a3 = *allocator;
        proof {
            allocator.available_finite();
            assert forall|f: int| s0.stored(f) implies (#[trigger] s1.stored(f))
                && s1.level_at(f) == s0.level_at(f) by {
                if created1 && f != rt {
                    assert(Mapper::unchanged_frame(s0, s1, f));
                }
            };
            assert forall|f: int| s1.stored(f) implies (#[trigger] s2.stored(f))
                && s2.level_at(f) == s1.level_at(f) by {
                if created2 && f != p3f as int {
                    assert(Mapper::unchanged_frame(s1, s2, f));
                }
            };
            assert forall|f: int| s2.stored(f) implies (#[trigger] s3.stored(f))
                && s3.level_at(f) == s2.level_at(f) by {
                if created3 && f != p2f as int {
                    assert(Mapper::unchanged_frame(s2, s3, f));
                }
            };
            assert(s3.child_at(p2f as int, i2) == Some(p1f as int));
            assert(rt != p2f as int && rt != p1f as int);
            assert(Mapper::unchanged_frame(s2, s3, rt) || s3 == s2);
            assert(s3.child_at(rt, i4) == Some(p3f as int));
            assert(p3f as int != p2f as int && p3f as int != p1f as int);
            assert(Mapper::unchanged_frame(s2, s3, p3f as int) || s3 == s2);
            assert(s3.child_at(p3f as int, i3) == Some(p2f as int));
            assert(s3.has_l1_path_from(rt, pn));
            assert(s3.l1_frame_from(rt, pn) == p1f as int);
            // The target level-1 slot is unused.
            if created3 {
                assert(s3.table_at(p1f as int)[i1] == 0);
            } else {
                assert(s3 == s2 && s2 == s1 && s1 == s0);
                assert(s0.mappable_from(rt, pn));
                assert(s3.table_at(p1f as int)[i1] == 0);
            }
        }
        let packed = (frame.number << 12) | flags.bits() | PRESENT;
        self.write_entry(p1f, page.p1_index(), packed);
        proof {
            let post = *self;
            assert(packed == pack_entry(frame.number, flags.bits));
            crate::entry::lemma_flags_with_present(flags.bits);
            crate::entry::lemma_entry_round_trip(frame.number, flags.bits | PRESENT);
            let fnum = frame.number;
            let fbits = flags.bits;
            assert(packed == pack_entry(fnum, fbits | PRESENT)) by (bit_vector)
                requires
                    packed == (fnum << 12) | fbits | PRESENT,
            ;
            assert(entry_present(packed) && entry_frame(packed) == frame.number);
            assert(post.level_at(p1f as int) == 1 && s3.level_at(p1f as int) == 1);
            // Invariant of the final store.
            Mapper::lemma_l1_write_inv(s3, post, p1f as int, i1, packed);
            assert(rt != p1f as int);
            assert(Mapper::unchanged_frame(s3, post, rt));
            assert(post.inv());
            // The new mapping is in place.
            assert(post.child_at(rt, i4) == Some(p3f as int));
            assert(p3f as int != p1f as int && Mapper::unchanged_frame(s3, post, p3f as int));
            assert(post.child_at(p3f as int, i3) == Some(p2f as int));
            assert(p2f as int != p1f as int && Mapper::unchanged_frame(s3, post, p2f as int));
            assert(post.child_at(p2f as int, i2) == Some(p1f as int));
            assert(post.table_at(p1f as int)[i1] == packed);
            assert(post.translate_page_spec(pn) == Some(frame.number as int));
            assert(post.has_l1_path_from(post.root(), pn));
            assert(post.l1_frame_from(post.root(), pn) == p1f as int);
            // Allocator bookkeeping.
            assert(a3.available().subset_of(old(allocator).available()));
            assert(a3.available().len() >= old(allocator).available().len() - s0.tables_needed(pn))
                by {
                if created1 {
                    assert(s0.tables_needed(pn) == 3);
                } else if created2 {
                    assert(s0.tables_needed(pn) == 2);
                } else if created3 {
                    assert(s0.tables_needed(pn) == 1);
                }
            };
            assert forall|f: int| s0.stored(f) implies post.stored(f) && post.level_at(f)
                == s0.level_at(f) by {
                assert(s1.stored(f));
                assert(s2.stored(f));
                assert(s3.stored(f));
                if f != p1f as int {
                    assert(Mapper::unchanged_frame(s3, post, f));
                }
            };
            assert forall|f: int| post.stored(f) implies s0.stored(f) || old(
                allocator,
            ).available().contains(f) by {
                assert(post.frames().contains(f) == post.stored(f));
                assert(s3.frames().contains(f) == s3.stored(f));
                assert(s2.frames().contains(f) == s2.stored(f));
                assert(s1.frames().contains(f) == s1.stored(f));
                assert(s0.frames().contains(f) == s0.stored(f));
            };
            // Frames that joined the store are intermediate tables.
            assert forall|f: int| post.stored(f) && !s0.stored(f) implies post.level_at(f)
                <= 3 by {
                if f != p3f as int && f != p2f as int && f != p1f as int {
                    assert(s3.stored(f) == post.stored(f));
                    assert(s2.stored(f) || Mapper::unchanged_frame(s2, s3, f));
                    assert(s1.stored(f) || Mapper::unchanged_frame(s1, s2, f));
                    assert(s0.stored(f) || Mapper::unchanged_frame(s0, s1, f));
                    assert(false);
                } else {
                    if f != p1f as int {
                        assert(Mapper::unchanged_frame(s3, post, f));
                    }
                    assert(post.level_at(f) == s3.level_at(f));
                    assert(s3.level_at(p3f as int) == 3);
                    assert(s3.level_at(p2f as int) == 2);
                    assert(s3.level_at(p1f as int) == 1);
                }
            };
            // Level-4 tables other than the walk root are untouched, and
            // the root's own recursive slot is untouched.
            assert forall|f: int|
                s0.stored(f) && s0.level_at(f) == 4 && f != rt implies post.table_at(f)
                    == s0.table_at(f) by {
                assert(f != p3f as int && f != p2f as int && f != p1f as int);
                assert(Mapper::unchanged_frame(s0, s1, f) || s1 == s0);
                assert(Mapper::unchanged_frame(s1, s2, f) || s2 == s1);
                assert(Mapper::unchanged_frame(s2, s3, f) || s3 == s2);
                assert(Mapper::unchanged_frame(s3, post, f));
            };
            assert(post.table_at(rt)[511] == s0.table_at(rt)[511]) by {
                assert(s1.table_at(rt)[511] == s0.table_at(rt)[511]);
                assert(rt != p3f as int && rt != p2f as int && rt != p1f as int);
                assert(Mapper::unchanged_frame(s1, s2, rt) || s2 == s1);
                assert(Mapper::unchanged_frame(s2, s3, rt) || s3 == s2);
                assert(Mapper::unchanged_frame(s3, post, rt));
            };
            // Other hierarchies keep their walks entirely, and pages that
            // already had a level-1 path keep both the path and (for other
            // pages) their exact entry: the final write touches a level-1
            // table on this root's own path.
            assert(s3.on_walk_path(rt, p1f as int)) by {
                assert(0 <= i4 < 511);
                assert(s3.child_at(rt, i4) == Some(p3f as int));
                assert(s3.child_at(p3f as int, i3) == Some(p2f as int));
                assert(s3.child_at(p2f as int, i2) == Some(p1f as int));
            };
            assert(post.table_at(p1f as int).len() == s3.table_at(p1f as int).len());
            assert forall|j: int|
                0 <= j < 512 && j != i1 implies #[trigger] post.table_at(p1f as int)[j]
                == s3.table_at(p1f as int)[j] by {};
            Mapper::lemma_map_to_paths(
                s0,
                s1,
                s2,
                s3,
                post,
                rt,
                p3f,
                p2f,
                p1f,
                pn,
                created1,
                created2,
                created3,
            );
            Mapper::lemma_map_to_summary(s0, s1, s2, s3, post, rt, p3f, p2f, p1f, pn);
            // Every other page, in every hierarchy, is untouched.
            assert(post.table_at(p1f as int).len() == s3.table_at(p1f as int).len());
            Mapper::lemma_l1_write_preserve(s3, post, rt, p1f as int, pn);
            assert forall|rr: int, n: int|
                s0.stored(rr) && s0.level_at(rr) == 4 && page_valid(n) && p4_index_spec(n) != 511
                    && n != pn implies #[trigger] post.resolve_from(rr, n) == s0.resolve_from(
                rr,
                n,
            ) && post.mappable_from(rr, n) == s0.mappable_from(rr, n) by {
                if rr == rt {
                    assert(post.resolve_from(rt, n) == s3.resolve_from(rt, n)
                        && post.mappable_from(rt, n) == s3.mappable_from(rt, n));
                    assert(s3.resolve_from(rt, n) == s2.resolve_from(rt, n));
                    assert(s2.resolve_from(rt, n) == s1.resolve_from(rt, n));
                    assert(s1.resolve_from(rt, n) == s0.resolve_from(rt, n));
                    assert(s3.mappable_from(rt, n) == s2.mappable_from(rt, n));
                    assert(s2.mappable_from(rt, n) == s1.mappable_from(rt, n));
                    assert(s1.mappable_from(rt, n) == s0.mappable_from(rt, n));
                }
            };
        }
    }

    /// Map `page` to a frame drawn from the allocator.  The frame the page
    /// ends up mapped to is read off the final level-1 entry.
    pub fn map<A: FrameAllocator>(&mut self, page: Page, flags: EntryFlags, allocator: &mut A)
        requires
            old(self).inv(),
            page_valid(page.number as int),
            p4_index_spec(page.number as int) != 511,
            old(self).mappable(page.number as int),
            flags.wf(),
            old(allocator).inv(),
            old(allocator).available().disjoint(old(self).frames()),
            forall|m: int| old(allocator).available().contains(m) ==> 0 <= m < FRAME_LIMIT,
            old(allocator).available().len() >= 1 + old(self).tables_needed(page.number as int),
        ensures
            final(self).inv(),
            final(self).p4_frame == old(self).p4_frame,
            final(allocator).inv(),
            final(allocator).available().disjoint(final(self).frames()),
            forall|m: int| final(allocator).available().contains(m) ==> 0 <= m < FRAME_LIMIT,
            final(allocator).available().subset_of(old(allocator).available()),
            final(allocator).available().len() >= old(allocator).available().len() - 1 - old(
                self,
            ).tables_needed(page.number as int),
            final(self).has_l1_path_from(final(self).root(), page.number as int),
            ({
                let fr = entry_frame(
                    final(self).table_at(
                        final(self).l1_frame_from(final(self).root(), page.number as int),
                    )[p1_index_spec(page.number as int)],
                );
                &&& old(allocator).available().contains(fr as int)
                &&& final(self).translate_page_spec(page.number as int) == Some(fr as int)
                &&& final(self).table_at(
                    final(self).l1_frame_from(final(self).root(), page.number as int),
                )[p1_index_spec(page.number as int)] == pack_entry(fr, flags.bits)
            }),
            forall|f: int|
                final(self).stored(f) ==> old(self).stored(f) || old(
                    allocator,
                ).available().contains(f),
            forall|rr: int, n: int|
                old(self).stored(rr) && old(self).level_at(rr) == 4 && page_valid(n)
                    && p4_index_spec(n) != 511 && n != page.number as int
                    ==> #[trigger] final(self).resolve_from(rr, n) == old(self).resolve_from(rr, n)
                    && final(self).mappable_from(rr, n) == old(self).mappable_from(rr, n),
    {
        proof {
            allocator.available_finite();
            assert(!old(allocator).available().is_empty()) by {
                assert(Set::<int>::empty().len() == 0);
            };
        }
        let frame = match allocator.allocate_frame() {
            Some(f) => f,
            None => {
                proof {
                    assert(false);
                }
                vstd::pervasive::unreached()
            },
        };
        proof {
            allocator.available_finite();
        }
        self.map_to(page, frame, flags, allocator);
        proof {
            crate::entry::lemma_flags_with_present(flags.bits);
            crate::entry::lemma_entry_round_trip(frame.number, flags.bits | PRESENT);
            let fb = flags.bits;
            let fnum = frame.number;
            assert(pack_entry(fnum, fb) == pack_entry(fnum, fb | PRESENT)) by (bit_vector);
            assert(entry_frame(pack_entry(frame.number, flags.bits)) == frame.number);
        }
    }

    /// Remove the mapping of `page`, which must be mapped through a normal
    /// walk (huge-page unmap is unsupported): its level-1 slot is cleared.
    /// Every other page keeps its translation, in every hierarchy, and the
    /// page itself becomes mappable again.  The frame the page pointed to is
    /// deliberately not reclaimed.
    #[verifier::rlimit(100)]
    #[verifier::spinoff_prover]
    pub fn unmap<A: FrameAllocator>(&mut self, page: Page, allocator: &mut A)
        requires
            old(self).inv(),
            page_valid(page.number as int),
            p4_index_spec(page.number as int) != 511,
            old(self).has_l1_path_from(old(self).root(), page.number as int),
            old(self).translate_page_spec(page.number as int) is Some,
        ensures
            final(self).inv(),
            final(self).p4_frame == old(self).p4_frame,
            *final(allocator) == *old(allocator),
            final(self).frames() =~= old(self).frames(),
            forall|f: int|
                f != old(self).l1_frame_from(old(self).root(), page.number as int)
                    ==> #[trigger] Mapper::unchanged_frame(*old(self), *final(self), f),
            forall|f: int| final(self).level_at(f) == old(self).level_at(f),
            final(self).table_at(old(self).l1_frame_from(old(self).root(), page.number as int))
                == old(self).table_at(
                old(self).l1_frame_from(old(self).root(), page.number as int),
            ).update(p1_index_spec(page.number as int), 0),
            final(self).translate_page_spec(page.number as int) == None::<int>,
            final(self).mappable(page.number as int),
            final(self).has_l1_path_from(final(self).root(), page.number as int),
            old(self).level_at(old(self).l1_frame_from(old(self).root(), page.number as int))
                == 1,
            final(self).table_at(final(self).root())[511] == old(self).table_at(
                old(self).root(),
            )[511],
            forall|rr: int, n: int|
                old(self).stored(rr) && old(self).level_at(rr) == 4 && page_valid(n)
                    && p4_index_spec(n) != 511 && n != page.number as int
                    ==> #[trigger] final(self).resolve_from(rr, n) == old(self).resolve_from(rr, n)
                    && final(self).mappable_from(rr, n) == old(self).mappable_from(rr, n),
            forall|rr: int, n: int|
                old(self).stored(rr) && old(self).level_at(rr) == 4 && rr != old(self).root() && 0
                    <= n && p4_index_spec(n) != 511 ==> #[trigger] final(self).has_l1_path_from(
                    rr,
                    n,
                ) == old(self).has_l1_path_from(rr, n),
            forall|rr: int, n: int|
                old(self).stored(rr) && old(self).level_at(rr) == 4 && rr != old(self).root() && 0
                    <= n && p4_index_spec(n) != 511 && old(self).has_l1_path_from(rr, n)
                    ==> #[trigger] final(self).l1_frame_from(rr, n) == old(self).l1_frame_from(
                    rr,
                    n,
                ),
            forall|rr: int, n: int|
                old(self).stored(rr) && old(self).level_at(rr) == 4 && rr != old(self).root() && 0
                    <= n && p4_index_spec(n) != 511 ==> #[trigger] final(self).resolve_from(rr, n)
                    == old(self).resolve_from(rr, n) && final(self).mappable_from(rr, n) == old(
                    self,
                ).mappable_from(rr, n),
            forall|q: int|
                0 <= q && p4_index_spec(q) != 511 ==> #[trigger] final(self).has_l1_path_from(
                    final(self).root(),
                    q,
                ) == old(self).has_l1_path_from(old(self).root(), q),
            forall|q: int|
                0 <= q && p4_index_spec(q) != 511 && old(self).has_l1_path_from(
                    old(self).root(),
                    q,
                ) ==> #[trigger] final(self).l1_frame_from(final(self).root(), q) == old(
                    self,
                ).l1_frame_from(old(self).root(), q),
    {
        let ghost s0 = *old(self);
        let ghost pn = page.number as int;
        let ghost rt = s0.root();
        let ghost i1 = p1_index_spec(pn);
        let e4 = self.read_entry(self.p4_frame, page.p4_index());
        proof {
            assert(s0.entry_ok(rt, p4_index_spec(pn)));
        }
        let f3 = (e4 & crate::entry::ADDR_MASK) >> 12;
        proof {
            assert(f3 == entry_frame(e4)) by (bit_vector)
                requires
                    f3 == (e4 & crate::entry::ADDR_MASK) >> 12,
            ;
        }
        let e3 = self.read_entry(f3, page.p3_index());
        proof {
            assert(s0.entry_ok(f3 as int, p3_index_spec(pn)));
        }
        let f2 = (e3 & crate::entry::ADDR_MASK) >> 12;
        proof {
            assert(f2 == entry_frame(e3)) by (bit_vector)
                requires
                    f2 == (e3 & crate::entry::ADDR_MASK) >> 12,
            ;
        }
        let e2 = self.read_entry(f2, page.p2_index());
        proof {
            assert(s0.entry_ok(f2 as int, p2_index_spec(pn)));
        }
        let f1 = (e2 & crate::entry::ADDR_MASK) >> 12;
        proof {
            assert(f1 == entry_frame(e2)) by (bit_vector)
                requires
                    f1 == (e2 & crate::entry::ADDR_MASK) >> 12,
            ;
            assert(f1 as int == s0.l1_frame_from(rt, pn));
            assert(s0.level_at(f1 as int) == 1);
        }
        self.write_entry(f1, page.p1_index(), 0);
        proof {
            let post = *self;
            crate::entry::lemma_zero_entry();
            assert(post.level_at(f1 as int) == 1 && post.stored(f1 as int));
            assert forall|f: int, k: int| post.stored(f) && 0 <= k < 512 implies #[trigger] post.entry_ok(
                f,
                k,
            ) by {
                if f == f1 as int && k == i1 {
                    assert(post.table_at(f)[k] == 0);
                } else {
                    if f != f1 as int {
                        assert(Mapper::unchanged_frame(s0, post, f));
                    }
                    assert(post.table_at(f)[k] == s0.table_at(f)[k]);
                    assert(s0.entry_ok(f, k));
                    let t = entry_frame(s0.table_at(f)[k]) as int;
                    if t != f1 as int {
                        assert(Mapper::unchanged_frame(s0, post, t));
                    }
                }
            };
            assert forall|f: int, k: int, g: int, l: int|
                {
                    (post.stored(f) && post.stored(g) && 0 <= k < 512 && 0 <= l < 512
                        && post.level_at(f) >= 2 && post.level_at(g) >= 2 && (
                    #[trigger] post.child_at(f, k)) is Some && (#[trigger] post.child_at(
                        g,
                        l,
                    )) is Some && post.child_at(f, k) == post.child_at(g, l) && post.level_at(
                        post.child_at(f, k)->0,
                    ) <= 3)
                } implies (f == g && k == l) by {
                assert(f != f1 as int && g != f1 as int);
                assert(Mapper::unchanged_frame(s0, post, f));
                assert(Mapper::unchanged_frame(s0, post, g));
                assert(s0.child_at(f, k) == post.child_at(f, k));
                assert(s0.child_at(g, l) == post.child_at(g, l));
                let d = post.child_at(f, k)->0;
                if d != f1 as int {
                    assert(Mapper::unchanged_frame(s0, post, d));
                }
            };
            assert(rt != f1 as int);
            assert(Mapper::unchanged_frame(s0, post, rt));
            assert(post.inv());
            assert forall|f: int| post.level_at(f) == s0.level_at(f) by {
                if f != f1 as int {
                    assert(Mapper::unchanged_frame(s0, post, f));
                }
            };
            assert(post.child_at(rt, p4_index_spec(pn)) == Some(f3 as int));
            assert(f3 as int != f1 as int && Mapper::unchanged_frame(s0, post, f3 as int));
            assert(post.child_at(f3 as int, p3_index_spec(pn)) == Some(f2 as int));
            assert(f2 as int != f1 as int && Mapper::unchanged_frame(s0, post, f2 as int));
            assert(post.child_at(f2 as int, p2_index_spec(pn)) == Some(f1 as int));
            assert(post.table_at(f1 as int)[i1] == 0);
            assert(post.translate_page_spec(pn) == None::<int>);
            assert(post.mappable(pn));
            // Other hierarchies keep their walks entirely: the cleared slot
            // sits in a level-1 table on this root's own path.
            assert(s0.on_walk_path(rt, f1 as int)) by {
                assert(0 <= p4_index_spec(pn) < 511);
                assert(s0.child_at(rt, p4_index_spec(pn)) == Some(f3 as int));
                assert(s0.child_at(f3 as int, p3_index_spec(pn)) == Some(f2 as int));
                assert(s0.child_at(f2 as int, p2_index_spec(pn)) == Some(f1 as int));
            };
            assert(post.table_at(f1 as int).len() == s0.table_at(f1 as int).len());
            Mapper::lemma_unmap_summary(s0, post, rt, f1 as int, pn);
        }
        let _ = allocator;
    }

    /// Map `frame` to the virtual page at the same numeric address.
    pub fn identity_map<A: FrameAllocator>(
        &mut self,
        frame: Frame,
        flags: EntryFlags,
        allocator: &mut A,
    )
        requires
            old(self).inv(),
            frame.number < 0x8_0000_0000,
            p4_index_spec(frame.number as int) != 511,
            old(self).mappable(frame.number as int),
            flags.wf(),
            old(allocator).inv(),
            old(allocator).available().disjoint(old(self).frames()),
            forall|m: int| old(allocator).available().contains(m) ==> 0 <= m < FRAME_LIMIT,
            old(allocator).available().len() >= old(self).tables_needed(frame.number as int),
        ensures
            final(self).inv(),
            final(self).p4_frame == old(self).p4_frame,
            final(allocator).inv(),
            final(allocator).available().disjoint(final(self).frames()),
            forall|m: int| final(allocator).available().contains(m) ==> 0 <= m < FRAME_LIMIT,
            final(allocator).available().subset_of(old(allocator).available()),
            final(allocator).available().len() >= old(allocator).available().len() - old(
                self,
            ).tables_needed(frame.number as int),
            final(self).translate_page_spec(frame.number as int) == Some(frame.number as int),
            final(self).has_l1_path_from(final(self).root(), frame.number as int),
            final(self).table_at(
                final(self).l1_frame_from(final(self).root(), frame.number as int),
            )[p1_index_spec(frame.number as int)] == pack_entry(frame.number, flags.bits),
            forall|f: int|
                old(self).stored(f) ==> final(self).stored(f) && final(self).level_at(f) == old(
                    self,
                ).level_at(f),
            forall|f: int|
                final(self).stored(f) ==> old(self).stored(f) || old(
                    allocator,
                ).available().contains(f),
            forall|f: int|
                final(self).stored(f) && !old(self).stored(f) ==> final(self).level_at(f) <= 3,
            forall|f: int|
                old(self).stored(f) && old(self).level_at(f) == 4 && f != old(self).root()
                    ==> final(self).table_at(f) == old(self).table_at(f),
            final(self).table_at(final(self).root())[511] == old(self).table_at(
                old(self).root(),
            )[511],
            forall|rr: int, n: int|
                old(self).stored(rr) && old(self).level_at(rr) == 4 && page_valid(n)
                    && p4_index_spec(n) != 511 && n != frame.number as int
                    ==> #[trigger] final(self).resolve_from(rr, n) == old(self).resolve_from(rr, n)
                    && final(self).mappable_from(rr, n) == old(self).mappable_from(rr, n),
            forall|rr: int, n: int|
                old(self).stored(rr) && old(self).level_at(rr) == 4 && rr != old(self).root() && 0
                    <= n && p4_index_spec(n) != 511 ==> #[trigger] final(self).has_l1_path_from(
                    rr,
                    n,
                ) == old(self).has_l1_path_from(rr, n),
            forall|rr: int, n: int|
                old(self).stored(rr) && old(self).level_at(rr) == 4 && rr != old(self).root() && 0
                    <= n && p4_index_spec(n) != 511 && old(self).has_l1_path_from(rr, n)
                    ==> #[trigger] final(self).l1_frame_from(rr, n) == old(self).l1_frame_from(
                    rr,
                    n,
                ),
            forall|q: int|
                0 <= q && p4_index_spec(q) != 511 && old(self).has_l1_path_from(
                    old(self).root(),
                    q,
                ) ==> #[trigger] final(self).has_l1_path_from(final(self).root(), q)
                    && final(self).l1_frame_from(final(self).root(), q) == old(
                    self,
                ).l1_frame_from(old(self).root(), q),
            forall|q: int|
                #![trigger final(self).table_at(final(self).l1_frame_from(final(self).root(), q))]
                #![trigger old(self).table_at(old(self).l1_frame_from(old(self).root(), q))]
                page_valid(q) && p4_index_spec(q) != 511 && q != frame.number as int && old(
                    self,
                ).has_l1_path_from(old(self).root(), q) ==> final(self).table_at(
                    final(self).l1_frame_from(final(self).root(), q),
                )[p1_index_spec(q)] == old(self).table_at(
                    old(self).l1_frame_from(old(self).root(), q),
                )[p1_index_spec(q)],
    {
        let target = frame.clone();
        let page = Page::containing_address(frame.start_address());
        proof {
            assert(page.number == frame.number);
        }
        self.map_to(page, target, flags, allocator);
        proof {
            assert forall|q: int|
                page_valid(q) && p4_index_spec(q) != 511 && q != frame.number as int && old(
                    self,
                ).has_l1_path_from(old(self).root(), q) implies #[trigger] self.table_at(
                self.l1_frame_from(self.root(), q),
            )[p1_index_spec(q)] == old(self).table_at(
                old(self).l1_frame_from(old(self).root(), q),
            )[p1_index_spec(q)] by {
                assert(q != page.number as int);
            };
        }
    }

    /// The frame the given page currently translates to, walking the
    /// hierarchy normally and decoding huge leaves at level 3 or 2.
    pub fn translate_page(&self, page: Page) -> (r: Option<Frame>)
        requires
            self.inv(),
            page_valid(page.number as int),
        ensures
            match self.translate_page_spec(page.number as int) {
                Some(m) => r == Some(Frame { number: m as u64 }) && m < FRAME_LIMIT,
                None => r == None::<Frame>,
            },
    {
        let n = page.number;
        let ghost ni = n as int;
        let e4 = self.read_entry(self.p4_frame, page.p4_index());
        proof {
            assert(self.entry_ok(self.root(), p4_index_spec(ni)));
            crate::entry::lemma_entry_frame_bound(e4);
        }
        if !(e4 & PRESENT == PRESENT) || e4 & crate::entry::HUGE_PAGE == crate::entry::HUGE_PAGE {
            return None;
        }
        let f3 = (e4 & crate::entry::ADDR_MASK) >> 12;
        proof {
            assert(f3 == entry_frame(e4)) by (bit_vector)
                requires
                    f3 == (e4 & crate::entry::ADDR_MASK) >> 12,
            ;
        }
        let e3 = self.read_entry(f3, page.p3_index());
        proof {
            assert(self.entry_ok(f3 as int, p3_index_spec(ni)));
            crate::entry::lemma_entry_frame_bound(e3);
        }
        if !(e3 & PRESENT == PRESENT) {
            return None;
        }
        if e3 & crate::entry::HUGE_PAGE == crate::entry::HUGE_PAGE {
            let start = (e3 & crate::entry::ADDR_MASK) >> 12;
            proof {
                assert(start == entry_frame(e3) && start < 0x100_0000_0000) by (bit_vector)
                    requires
                        start == (e3 & crate::entry::ADDR_MASK) >> 12,
                ;
                assert(start + p2_index_spec(ni) * 512 + p1_index_spec(ni) < 0x100_0000_0000) by {
                    assert(start % 0x40000 == 0);
                    assert(start <= 0x100_0000_0000 - 0x40000) by (nonlinear_arith)
                        requires
                            start % 0x40000 == 0,
                            start < 0x100_0000_0000,
                    ;
                };
            }
            return Some(
                Frame { number: start + (page.p2_index() as u64) * 512 + (page.p1_index() as u64) },
            );
        }
        let f2 = (e3 & crate::entry::ADDR_MASK) >> 12;
        proof {
            assert(f2 == entry_frame(e3)) by (bit_vector)
                requires
                    f2 == (e3 & crate::entry::ADDR_MASK) >> 12,
            ;
        }
        let e2 = self.read_entry(f2, page.p2_index());
        proof {
            assert(self.entry_ok(f2 as int, p2_index_spec(ni)));
            crate::entry::lemma_entry_frame_bound(e2);
        }
        if !(e2 & PRESENT == PRESENT) {
            return None;
        }
        if e2 & crate::entry::HUGE_PAGE == crate::entry::HUGE_PAGE {
            let start = (e2 & crate::entry::ADDR_MASK) >> 12;
            proof {
                assert(start == entry_frame(e2) && start < 0x100_0000_0000) by (bit_vector)
                    requires
                        start == (e2 & crate::entry::ADDR_MASK) >> 12,
                ;
                assert(start + p1_index_spec(ni) < 0x100_0000_0000) by {
                    assert(start % 512 == 0);
                    assert(start <= 0x100_0000_0000 - 512) by (nonlinear_arith)
                        requires
                            start % 512 == 0,
                            start < 0x100_0000_0000,
                    ;
                };
            }
            return Some(Frame { number: start + (page.p1_index() as u64) });
        }
        let f1 = (e2 & crate::entry::ADDR_MASK) >> 12;
        proof {
            assert(f1 == entry_frame(e2)) by (bit_vector)
                requires
                    f1 == (e2 & crate::entry::ADDR_MASK) >> 12,
            ;
        }
        let e1 = self.read_entry(f1, page.p1_index());
        proof {
            crate::entry::lemma_entry_frame_bound(e1);
        }
        if e1 & PRESENT == PRESENT {
            let m = (e1 & crate::entry::ADDR_MASK) >> 12;
            proof {
                assert(m == entry_frame(e1)) by (bit_vector)
                    requires
                        m == (e1 & crate::entry::ADDR_MASK) >> 12,
                ;
            }
            Some(Frame { number: m })
        } else {
            None
        }
    }

    /// The physical address the given virtual address translates to:
    /// resolve its page and add the offset back.
    pub fn translate(&self, vt_addr: u64) -> (r: Option<u64>)
        requires
            self.inv(),
            vt_addr < 0x8000_0000_0000 || vt_addr >= 0xFFFF_8000_0000_0000,
        ensures
            match self.translate_spec(vt_addr as int) {
                Some(a) => r == Some(a as u64),
                None => r == None::<u64>,
            },
    {
        let offset = vt_addr % PAGE_SIZE;
        match self.translate_page(Page::containing_address(vt_addr)) {
            Some(frame) => Some(frame.start_address() + offset),
            None => None,
        }
    }
}

/// Translating the start address of a page resolves the page itself and
/// adds no offset: together with the contracts of `map_to` and `unmap` this
/// is the map / unmap round trip, since mapping a page to a frame makes the
/// page's start address translate to the frame's start address, and
/// unmapping it afterwards makes the translation fail.
pub proof fn lemma_translate_page_start(s: Mapper, page: Page)
    requires
        page.number < crate::paging::PAGE_LIMIT,
    ensures
        s.translate_spec(page.number * PAGE_SIZE as int) == match s.translate_page_spec(
            page.number as int,
        ) {
            Some(f) => Some(f * PAGE_SIZE as int),
            None => None::<int>,
        },
{
    let a = page.number * PAGE_SIZE as int;
    assert(a / PAGE_SIZE as int == page.number && a % PAGE_SIZE as int == 0) by (nonlinear_arith)
        requires
            a == page.number * PAGE_SIZE as int,
            0 <= page.number,
            PAGE_SIZE == 4096,
    ;
}

/// Huge-page decode at level 3: when a page's walk reaches a present
/// level-3 entry with the huge-page bit set, the page translates to the
/// entry's 1 GiB-aligned frame plus its two remaining indices, for every
/// combination of level-2 and level-1 index.
pub proof fn lemma_huge_page_translate(s: Mapper, n: int)
    requires
        s.inv(),
        0 <= n,
        s.child_at(s.root(), p4_index_spec(n)) is Some,
        entry_present(s.table_at(s.child_at(s.root(), p4_index_spec(n))->0)[p3_index_spec(n)]),
        entry_huge(s.table_at(s.child_at(s.root(), p4_index_spec(n))->0)[p3_index_spec(n)]),
        p4_index_spec(n) != 511,
    ensures
        ({
            let e3 = s.table_at(s.child_at(s.root(), p4_index_spec(n))->0)[p3_index_spec(n)];
            &&& entry_frame(e3) as int % 0x40000 == 0
            &&& s.translate_page_spec(n) == Some(
                entry_frame(e3) + p2_index_spec(n) * 512 + p1_index_spec(n),
            )
        }),
{
    let f3 = s.child_at(s.root(), p4_index_spec(n))->0;
    assert(s.entry_ok(s.root(), p4_index_spec(n)));
    assert(s.level_at(f3) == 3);
    assert(s.entry_ok(f3, p3_index_spec(n)));
}

/// The recursive-mapping theorem: with the self-map in place, the pages at
/// the very top of the address space translate to the walk tables
/// themselves.  Walking the last 512 pages reads the root table as if it
/// were a level-1 table, so the page at index `i` translates to whatever
/// frame the root's entry `i` holds - and in particular the highest page of
/// the address space translates to the root frame itself.
pub proof fn lemma_recursive_mapping(s: Mapper, i: int)
    requires
        s.inv(),
        s.self_mapped(),
        0 <= i < 512,
    ensures
        s.translate_page_spec(0xF_FFFF_FFFF_FE00 + i) == (if entry_present(
            s.table_at(s.root())[i],
        ) {
            Some(entry_frame(s.table_at(s.root())[i]) as int)
        } else {
            None::<int>
        }),
        s.translate_page_spec(0xF_FFFF_FFFF_FFFF) == Some(s.root()),
{
    let base: int = 0xF_FFFF_FFFF_FE00;
    let n = base + i;
    assert(p1_index_spec(n) == i) by (nonlinear_arith)
        requires
            n == 0xF_FFFF_FFFF_FE00 + i,
            0 <= i < 512,
    ;
    assert(p2_index_spec(n) == 511 && p3_index_spec(n) == 511 && p4_index_spec(n) == 511)
        by (nonlinear_arith)
        requires
            n == 0xF_FFFF_FFFF_FE00 + i,
            0 <= i < 512,
    ;
    assert(s.entry_ok(s.root(), 511));
    assert(s.child_at(s.root(), 511) == Some(s.root()));
    assert(!entry_huge(s.table_at(s.root())[511]));
    assert(s.translate_page_spec(n) == (if entry_present(s.table_at(s.root())[i]) {
        Some(entry_frame(s.table_at(s.root())[i]) as int)
    } else {
        None::<int>
    }));
    lemma_recursive_mapping_top(s);
}

/// The highest page of the address space translates to the root frame.
proof fn lemma_recursive_mapping_top(s: Mapper)
    requires
        s.inv(),
        s.self_mapped(),
    ensures
        s.translate_page_spec(0xF_FFFF_FFFF_FFFF) == Some(s.root()),
{
    let n: int = 0xF_FFFF_FFFF_FFFF;
    assert(p1_index_spec(n) == 511 && p2_index_spec(n) == 511 && p3_index_spec(n) == 511
        && p4_index_spec(n) == 511);
    assert(s.entry_ok(s.root(), 511));
    assert(s.child_at(s.root(), 511) == Some(s.root()));
    assert(!entry_huge(s.table_at(s.root())[511]));
    assert(entry_frame(s.table_at(s.root())[511]) == s.root());
}

} // verus!
