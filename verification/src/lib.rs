//! Memory-management core of a small 64-bit kernel with 4-level page tables.
//!
//! The crate tracks which physical page frames are free, and builds, mutates
//! and activates page-table hierarchies that map virtual pages to physical
//! frames.  Hardware state (physical memory holding the tables, and the
//! translation-root register) is represented as an explicit, addressable
//! table store indexed by physical frame number, so that the table-walking
//! and mapping logic can be stated and proved over a mathematical view of
//! that store.

pub mod memory;
pub mod entry;
pub mod frame_alloc;
pub mod table;
pub mod mapper;
pub mod temp_page;
pub mod paging;
pub mod vga;
