//! The 64-bit page-table entry: a frame pointer plus a flag bitset.

use vstd::prelude::*;
use crate::memory::{Frame, FRAME_LIMIT};

verus! {

/// Page is in memory.
pub const PRESENT: u64 = 0x1;

/// Writes to the page are allowed.
pub const WRITABLE: u64 = 0x2;

/// The page is reachable from user mode.
pub const USER_ACCESSIBLE: u64 = 0x4;

/// Writes go directly to memory.
pub const WRITE_THROUGH: u64 = 0x8;

/// No cache is used for the page.
pub const NO_CACHE: u64 = 0x10;

/// Set by the CPU when the page is used.
pub const ACCESSED: u64 = 0x20;

/// Set by the CPU when the page is written to.
pub const DIRTY: u64 = 0x40;

/// Terminal mapping above level 1: 1 GiB at level 3, 2 MiB at level 2.
pub const HUGE_PAGE: u64 = 0x80;

/// Not flushed from the translation cache on an address-space switch.
pub const GLOBAL: u64 = 0x100;

/// Executing code on the page is forbidden.
pub const NO_EXECUTE: u64 = 0x8000_0000_0000_0000;

/// Every architecturally defined flag bit.
pub const FLAGS_MASK: u64 = PRESENT | WRITABLE | USER_ACCESSIBLE | WRITE_THROUGH | NO_CACHE
    | ACCESSED | DIRTY | HUGE_PAGE | GLOBAL | NO_EXECUTE;

/// Address bits 12..=51 of an entry: the start address of the pointed frame.
pub const ADDR_MASK: u64 = 0x000F_FFFF_FFFF_F000;

/// The entry has its present bit set.
pub open spec fn entry_present(e: u64) -> bool {
    e & PRESENT == PRESENT
}

/// The entry has its huge-page bit set.
pub open spec fn entry_huge(e: u64) -> bool {
    e & HUGE_PAGE == HUGE_PAGE
}

/// The physical start address packed into the entry.
pub open spec fn entry_addr(e: u64) -> u64 {
    e & ADDR_MASK
}

/// The number of the frame packed into the entry.
pub open spec fn entry_frame(e: u64) -> u64 {
    entry_addr(e) >> 12
}

/// The flag bits of the entry.
pub open spec fn entry_flag_bits(e: u64) -> u64 {
    e & FLAGS_MASK
}

/// The 64-bit value encoding the given frame number and flags, with the
/// present bit forced on.
pub open spec fn pack_entry(number: u64, flags: u64) -> u64 {
    (number << 12) | flags | PRESENT
}

/// Unpacking an entry that was packed from an in-range frame number and a
/// well-formed flag set gives back exactly what was put in, with the present
/// bit added to the flags.
pub proof fn lemma_entry_round_trip(number: u64, flags: u64)
    by (bit_vector)
    requires
        number < 0x100_0000_0000,
        flags & (PRESENT | WRITABLE | USER_ACCESSIBLE | WRITE_THROUGH | NO_CACHE | ACCESSED
            | DIRTY | HUGE_PAGE | GLOBAL | NO_EXECUTE) == flags,
    ensures
        entry_present(pack_entry(number, flags)),
        entry_frame(pack_entry(number, flags)) == number,
        entry_flag_bits(pack_entry(number, flags)) == flags | PRESENT,
        entry_huge(pack_entry(number, flags)) == (flags & HUGE_PAGE == HUGE_PAGE),
{
}

/// The frame number held by any entry is below `FRAME_LIMIT`.
pub proof fn lemma_entry_frame_bound(e: u64)
    by (bit_vector)
    ensures
        entry_frame(e) < 0x100_0000_0000,
{
}

/// The present-and-writable flag combination used for intermediate tables
/// is well-formed and carries no huge-page bit.
pub proof fn lemma_present_writable_flags()
    by (bit_vector)
    ensures
        (PRESENT | WRITABLE) & FLAGS_MASK == PRESENT | WRITABLE,
        (PRESENT | WRITABLE) & HUGE_PAGE != HUGE_PAGE,
{
}

/// Adding the present bit to a well-formed flag set keeps it well-formed,
/// and adds no huge-page bit.
pub proof fn lemma_flags_with_present(a: u64)
    by (bit_vector)
    requires
        a & FLAGS_MASK == a,
    ensures
        (a | PRESENT) & FLAGS_MASK == (a | PRESENT),
        ((a | PRESENT) & HUGE_PAGE == HUGE_PAGE) == (a & HUGE_PAGE == HUGE_PAGE),
{
}

/// A present entry is never the all-zero entry.
pub proof fn lemma_present_nonzero(e: u64)
    by (bit_vector)
    requires
        e & PRESENT == PRESENT,
    ensures
        e != 0,
{
}

/// The all-zero entry is neither present nor huge and points nowhere.
pub proof fn lemma_zero_entry()
    by (bit_vector)
    ensures
        !entry_present(0),
        !entry_huge(0),
        entry_frame(0) == 0,
{
}

/// A flag bitset for one table entry; only bits of `FLAGS_MASK` may be set.
#[derive(Debug, Clone, Copy, PartialEq, Eq, Structural)]
pub struct EntryFlags {
    pub bits: u64,
}

impl EntryFlags {
    /// Only architecturally defined flag bits are set.
    pub open spec fn wf(self) -> bool {
        self.bits & FLAGS_MASK == self.bits
    }

    /// The empty flag set.
    pub fn empty() -> (r: EntryFlags)
        ensures
            r.bits == 0,
            r.wf(),
    {
        proof {
            assert(0u64 & FLAGS_MASK == 0u64) by (bit_vector);
        }
        EntryFlags { bits: 0 }
    }

    /// The flag set holding exactly the defined bits of `bits`.
    pub fn from_bits_truncate(bits: u64) -> (r: EntryFlags)
        ensures
            r.bits == bits & FLAGS_MASK,
            r.wf(),
    {
        proof {
            assert((bits & FLAGS_MASK) & FLAGS_MASK == bits & FLAGS_MASK) by (bit_vector);
        }
        EntryFlags { bits: bits & FLAGS_MASK }
    }

    /// The raw bit pattern.
    pub fn bits(&self) -> (r: u64)
        ensures
            r == self.bits,
    {
        self.bits
    }

    /// Whether every bit of `other` is also set in `self`.
    pub fn contains(&self, other: EntryFlags) -> (r: bool)
        ensures
            r == (self.bits & other.bits == other.bits),
    {
        self.bits & other.bits == other.bits
    }

    /// The union of two flag sets.
    pub fn union(self, other: EntryFlags) -> (r: EntryFlags)
        requires
            self.wf(),
            other.wf(),
        ensures
            r.bits == self.bits | other.bits,
            r.wf(),
    {
        proof {
            lemma_flags_union(self.bits, other.bits);
        }
        EntryFlags { bits: self.bits | other.bits }
    }

    /// Flags for a mapped kernel section: present, writable when the section
    /// is writable, no-execute when it is not executable.
    pub fn from_elf_section_flags(writable: bool, executable: bool) -> (r: EntryFlags)
        ensures
            r.bits == PRESENT | (if writable {
                WRITABLE
            } else {
                0
            }) | (if executable {
                0
            } else {
                NO_EXECUTE
            }),
            r.wf(),
    {
        let bits: u64 = PRESENT | (if writable {
            WRITABLE
        } else {
            0
        }) | (if executable {
            0
        } else {
            NO_EXECUTE
        });
        proof {
            lemma_elf_flags_wf(writable, executable);
        }
        EntryFlags { bits }
    }
}

/// The union of two well-formed flag sets is well-formed.
proof fn lemma_flags_union(a: u64, b: u64)
    by (bit_vector)
    requires
        a & (PRESENT | WRITABLE | USER_ACCESSIBLE | WRITE_THROUGH | NO_CACHE | ACCESSED | DIRTY
            | HUGE_PAGE | GLOBAL | NO_EXECUTE) == a,
        b & (PRESENT | WRITABLE | USER_ACCESSIBLE | WRITE_THROUGH | NO_CACHE | ACCESSED | DIRTY
            | HUGE_PAGE | GLOBAL | NO_EXECUTE) == b,
    ensures
        (a | b) & (PRESENT | WRITABLE | USER_ACCESSIBLE | WRITE_THROUGH | NO_CACHE | ACCESSED
            | DIRTY | HUGE_PAGE | GLOBAL | NO_EXECUTE) == (a | b),
{
}

/// Any combination of the present, writable and no-execute bits is a
/// well-formed flag set.
proof fn lemma_elf_flags_wf(writable: bool, executable: bool)
    by (bit_vector)
    ensures
        (PRESENT | (if writable {
            WRITABLE
        } else {
            0
        }) | (if executable {
            0
        } else {
            NO_EXECUTE
        })) & (PRESENT | WRITABLE | USER_ACCESSIBLE | WRITE_THROUGH | NO_CACHE | ACCESSED | DIRTY
            | HUGE_PAGE | GLOBAL | NO_EXECUTE) == PRESENT | (if writable {
            WRITABLE
        } else {
            0
        }) | (if executable {
            0
        } else {
            NO_EXECUTE
        }),
{
}

/// One slot of a page table.  An entry is unused exactly when all of its
/// bits are zero.
#[derive(Debug, Clone, Copy, PartialEq, Eq, Structural)]
pub struct Entry(pub u64);

impl Entry {
    /// Whether all bits of the entry are zero.
    pub fn is_unused(&self) -> (r: bool)
        ensures
            r == (self.0 == 0),
    {
        self.0 == 0
    }

    /// Clear the entry.
    pub fn set_unused(&mut self)
        ensures
            final(self).0 == 0,
    {
        self.0 = 0;
    }

    /// The defined flag bits of the entry.
    pub fn flags(&self) -> (r: EntryFlags)
        ensures
            r.bits == entry_flag_bits(self.0),
            r.wf(),
    {
        EntryFlags::from_bits_truncate(self.0)
    }

    /// The frame the entry points to, if its present bit is set.
    pub fn pointed_frame(&self) -> (r: Option<Frame>)
        ensures
            entry_present(self.0) ==> r == Some(Frame { number: entry_frame(self.0) })
                && entry_frame(self.0) < FRAME_LIMIT,
            !entry_present(self.0) ==> r == None::<Frame>,
    {
        if self.0 & PRESENT == PRESENT {
            proof {
                lemma_entry_frame_bound(self.0);
            }
            Some(Frame { number: (self.0 & ADDR_MASK) >> 12 })
        } else {
            None
        }
    }

    /// Point the entry at `frame` with the given flags; the present bit is
    /// always forced on.  The frame's start address must fit the physical
    /// address bits of the entry, which bounds its number to 40 bits.
    pub fn set(&mut self, frame: Frame, flags: EntryFlags)
        requires
            frame.number < FRAME_LIMIT,
            flags.wf(),
        ensures
            final(self).0 == pack_entry(frame.number, flags.bits),
            entry_present(final(self).0),
            entry_frame(final(self).0) == frame.number,
            entry_flag_bits(final(self).0) == flags.bits | PRESENT,
    {
        proof {
            lemma_entry_round_trip(frame.number, flags.bits);
        }
        self.0 = (frame.number << 12) | flags.bits | PRESENT;
    }
}

} // verus!
