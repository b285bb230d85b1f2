use withered::entry::{Entry, EntryFlags, HUGE_PAGE, NO_EXECUTE, PRESENT, WRITABLE};
use withered::frame_alloc::{AreaFrameAllocator, MemoryArea};
use withered::mapper::{Mapper, TableSlot};
use withered::memory::{Frame, FrameAllocator};
use withered::paging::{ActivePageTable, InactivePageTable, Page};
use withered::table::Table;
use withered::temp_page::TemporaryPage;
use withered::vga::{bg_color, color_code, fg_color, print, print_color, Color, Writer};

#[test]
fn entry_round_trip() {
    let mut e = Entry(0);
    assert!(e.is_unused());
    let flags = EntryFlags::from_bits_truncate(WRITABLE | NO_EXECUTE);
    e.set(Frame { number: 0xB8 }, flags);
    assert!(!e.is_unused());
    assert_eq!(e.pointed_frame(), Some(Frame { number: 0xB8 }));
    assert_eq!(e.flags().bits(), PRESENT | WRITABLE | NO_EXECUTE);
    e.set_unused();
    assert!(e.is_unused());
    assert_eq!(e.pointed_frame(), None);
}

#[test]
fn elf_section_flags() {
    assert_eq!(EntryFlags::from_elf_section_flags(true, false).bits(), PRESENT | WRITABLE | NO_EXECUTE);
    assert_eq!(EntryFlags::from_elf_section_flags(false, true).bits(), PRESENT);
    assert_eq!(EntryFlags::from_elf_section_flags(true, true).bits(), PRESENT | WRITABLE);
}

#[test]
fn page_index_decomposition() {
    let page = Page::containing_address(0xDEAD_BEEF_000);
    assert_eq!(page.number, 0xDEAD_BEEF);
    let reconstructed = (page.p4_index() as u64) * 0x800_0000 + (page.p3_index() as u64) * 0x4_0000
        + (page.p2_index() as u64) * 0x200 + page.p1_index() as u64;
    assert_eq!(reconstructed, 0xDEAD_BEEF);
}

#[test]
fn page_index_decomposition_high_half() {
    let page = Page::containing_address(0xFFFF_FFFF_FFFF_F000);
    assert_eq!(page.p4_index(), 511);
    assert_eq!(page.p3_index(), 511);
    assert_eq!(page.p2_index(), 511);
    assert_eq!(page.p1_index(), 511);
}

#[test]
fn frame_numbering() {
    let f = Frame::containing_address(0x108123);
    assert_eq!(f.number, 0x108);
    assert_eq!(f.start_address(), 0x108000);
}

#[test]
fn allocator_scenario() {
    // One area of 32 MiB minus a kernel range and a boot-info range.
    let areas = vec![MemoryArea { base_addr: 0, length: 0x200_0000 }];
    let mut alloc = AreaFrameAllocator::new(0x10_0000, 0x10_8000, 0x10_9000, 0x10_9100, areas);
    for n in 0..0x100u64 {
        assert_eq!(alloc.allocate_frame(), Some(Frame { number: n }));
    }
    // The kernel range is skipped: the next frame is the one its half-open
    // end address falls in.
    assert_eq!(alloc.allocate_frame(), Some(Frame { number: 0x108 }));
    // The boot-info range is skipped as well.
    assert_eq!(alloc.allocate_frame(), Some(Frame { number: 0x10A }));
    for n in 0x10B..0x2000u64 {
        assert_eq!(alloc.allocate_frame(), Some(Frame { number: n }));
    }
    // The area is exhausted.
    assert_eq!(alloc.allocate_frame(), None);
    assert_eq!(alloc.allocate_frame(), None);
}

#[test]
fn allocator_monotonic() {
    let areas = vec![
        MemoryArea { base_addr: 0x5000, length: 0x3000 },
        MemoryArea { base_addr: 0x1000, length: 0x2000 },
    ];
    let mut alloc = AreaFrameAllocator::new(0x100000, 0x100000, 0x200000, 0x200000, areas);
    let mut last = None;
    while let Some(f) = alloc.allocate_frame() {
        if let Some(prev) = last {
            assert!(prev < f.number);
        }
        last = Some(f.number);
    }
    assert_eq!(last, Some(7));
}

#[test]
fn map_unmap_round_trip() {
    let mut active = ActivePageTable::new(Frame { number: 500 });
    let areas = vec![MemoryArea { base_addr: 0x1000_0000, length: 0x10_0000 }];
    let mut alloc = AreaFrameAllocator::new(0, 0, 0, 0, areas);
    let page = Page::containing_address(0x4000_0000);
    active.mapper.map_to(page, Frame { number: 0xB8 }, EntryFlags::from_bits_truncate(WRITABLE), &mut alloc);
    assert_eq!(active.mapper.translate(0x4000_0123), Some(0xB8123));
    assert_eq!(active.mapper.translate_page(page), Some(Frame { number: 0xB8 }));
    active.mapper.unmap(page, &mut alloc);
    assert_eq!(active.mapper.translate(0x4000_0123), None);
    assert_eq!(active.mapper.translate_page(page), None);
}

#[test]
fn map_draws_fresh_frame() {
    let mut active = ActivePageTable::new(Frame { number: 500 });
    let areas = vec![MemoryArea { base_addr: 0x1000_0000, length: 0x10_0000 }];
    let mut alloc = AreaFrameAllocator::new(0, 0, 0, 0, areas);
    let page = Page::containing_address(0x123_4000);
    active.mapper.map(page, EntryFlags::from_bits_truncate(WRITABLE), &mut alloc);
    let target = active.mapper.translate_page(page).unwrap();
    assert!(target.number >= 0x1000_0000 / 4096);
}

#[test]
fn huge_page_decode() {
    // A present level-3 entry with the huge-page bit and a 1 GiB-aligned
    // frame maps every page of its slot to frame + p2 * 512 + p1.
    let mut root = Table::new();
    let mut e4 = Entry(0);
    e4.set(Frame { number: 77 }, EntryFlags::from_bits_truncate(WRITABLE));
    root.set_entry(3, e4); // level-4 index 3
    let mut p3 = Table::new();
    let mut e3 = Entry(0);
    e3.set(Frame { number: 0x80000 }, EntryFlags::from_bits_truncate(HUGE_PAGE | WRITABLE));
    p3.set_entry(5, e3); // level-3 index 5
    let mapper = Mapper {
        slots: vec![TableSlot::new(42, 4, root), TableSlot::new(77, 3, p3)],
        p4_frame: 42,
    };
    // page number with p4 = 3, p3 = 5, p2 = 7, p1 = 9
    let n: u64 = 3 * 0x800_0000 + 5 * 0x4_0000 + 7 * 0x200 + 9;
    let r = mapper.translate_page(Page { number: n });
    assert_eq!(r, Some(Frame { number: 0x80000 + 7 * 512 + 9 }));
}

#[test]
fn remap_scenario() {
    // A miniature kernel remap: build an inactive hierarchy, identity-map
    // the text-output buffer frame into it, switch to it, and unmap the
    // old root's page.
    let old_root = Frame { number: 0x42 };
    let mut active = ActivePageTable::new(Frame { number: old_root.number });
    let areas = vec![MemoryArea { base_addr: 0x100_0000, length: 0x100_0000 }];
    let mut alloc = AreaFrameAllocator::new(0, 0, 0, 0, areas);
    let mut temp = TemporaryPage::new(Page { number: 0xDEADBEEF }, &mut alloc);
    let root_frame = alloc.allocate_frame().unwrap();
    let new_table = InactivePageTable::new(root_frame, &mut active, &mut temp);
    let backup = active.begin_edit(&new_table, &mut temp);
    // Populate the inactive hierarchy: the text buffer, and the frame the
    // old root lives in so its page stays reachable after the switch.
    active.mapper.identity_map(Frame { number: 0xB8 }, EntryFlags::from_bits_truncate(WRITABLE), &mut alloc);
    active.mapper.identity_map(Frame { number: old_root.number }, EntryFlags::from_bits_truncate(PRESENT), &mut alloc);
    active.end_edit(backup, &mut temp);
    let old_table = active.switch(new_table);
    assert_eq!(old_table.p4_frame.number, old_root.number);
    // The text buffer translates to its own physical address.
    assert_eq!(active.mapper.translate(0xB8000), Some(0xB8000));
    // After tearing down the old root's page, it no longer translates.
    let old_p4_page = Page::containing_address(old_table.p4_frame.start_address());
    active.mapper.unmap(old_p4_page, &mut alloc);
    assert_eq!(active.mapper.translate_page(old_p4_page), None);
    assert_eq!(active.mapper.translate(0xB8000), Some(0xB8000));
}

#[test]
fn temporary_page_round_trip() {
    let mut active = ActivePageTable::new(Frame { number: 7 });
    let areas = vec![MemoryArea { base_addr: 0x20_0000, length: 0x8_0000 }];
    let mut alloc = AreaFrameAllocator::new(0, 0, 0, 0, areas);
    let mut temp = TemporaryPage::new(Page { number: 0xCAFE }, &mut alloc);
    let addr = temp.map(Frame { number: 0x99 }, &mut active);
    assert_eq!(addr, 0xCAFE * 4096);
    assert_eq!(active.mapper.translate(addr), Some(0x99 * 4096));
    temp.unmap(&mut active);
    assert_eq!(active.mapper.translate(addr), None);
}

#[test]
fn recursive_mapping_reaches_tables() {
    // With the self-map in place, the highest page of the address space
    // translates to the root table's own frame.
    let active = ActivePageTable::new(Frame { number: 0x42 });
    assert_eq!(active.mapper.translate(0xFFFF_FFFF_FFFF_F000), Some(0x42000));
}

#[test]
fn writer_cursor() {
    let mut w = Writer::new(Color::LightGrey, Color::Black);
    assert_eq!(w.column_pos, 0);
    print(&mut w, "hi");
    assert_eq!(w.column_pos, 2);
    print(&mut w, "\n");
    assert_eq!(w.column_pos, 0);
    print_color(&mut w, Color::Pink, "boot");
    assert_eq!(w.column_pos, 4);
    assert_eq!(w.fg_color, Color::Pink);
    fg_color(&mut w, Color::Red);
    bg_color(&mut w, Color::Blue);
    assert_eq!(w.fg_color, Color::Red);
    assert_eq!(w.bg_color, Color::Blue);
}

#[test]
fn color_codes() {
    assert_eq!(Color::Black.code(), 0);
    assert_eq!(Color::White.code(), 15);
    assert_eq!(color_code(Color::Pink, Color::Black), 13);
    assert_eq!(color_code(Color::LightGrey, Color::Blue), 16 + 7);
}

#[test]
fn temporary_page_pool_reuse() {
    // Unmapping the reserved page tears its table chain down and returns
    // the frames to the private pool, so the page can be mapped again and
    // again without touching any other allocator.
    let mut active = ActivePageTable::new(Frame { number: 7 });
    let areas = vec![MemoryArea { base_addr: 0x20_0000, length: 0x8_0000 }];
    let mut alloc = AreaFrameAllocator::new(0, 0, 0, 0, areas);
    let mut temp = TemporaryPage::new(Page { number: 0xCAFE }, &mut alloc);
    for round in 0..4u64 {
        let addr = temp.map(Frame { number: 0x90 + round }, &mut active);
        assert_eq!(active.mapper.translate(addr), Some((0x90 + round) * 4096));
        temp.unmap(&mut active);
        assert_eq!(active.mapper.translate(addr), None);
    }
}

#[test]
fn allocator_empty_ranges_reserve_nothing() {
    // Half-open ranges with start == end reserve no frame at all.
    let areas = vec![MemoryArea { base_addr: 0, length: 0x3000 }];
    let mut alloc = AreaFrameAllocator::new(0x1000, 0x1000, 0x2000, 0x2000, areas);
    assert_eq!(alloc.allocate_frame(), Some(Frame { number: 0 }));
    assert_eq!(alloc.allocate_frame(), Some(Frame { number: 1 }));
    assert_eq!(alloc.allocate_frame(), Some(Frame { number: 2 }));
    assert_eq!(alloc.allocate_frame(), None);
}
