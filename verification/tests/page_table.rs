use kernel::arch::x86_64::mm::page_table::{MapError, PageTable, TableList};
use kernel::arch::x86_64::mm::table_entry::{
    get_page_index_1, get_page_index_2, get_page_index_3, get_page_index_4, index_to_page,
    TableEntry,
};
use kernel::arch::x86_64::mm::table_memory::{TableArena, TableMemory};
use kernel::mm::definitions::{
    Frame, FrameAllocator, FrameRegion, MappingRegion, Page, PageFlags, PageRegion,
};
use kernel::mm::frame_allocator::StaticFrameAllocator;

const ARENA_FRAMES: usize = 256;

fn world() -> (TableArena, StaticFrameAllocator) {
    let mem = TableArena::new(ARENA_FRAMES);
    let mut alloc = StaticFrameAllocator::new();
    alloc.free(&FrameRegion::new(Frame::new(1), ARENA_FRAMES as u64 - 1)).unwrap();
    (mem, alloc)
}

fn free_frames(alloc: &StaticFrameAllocator) -> Vec<(u64, u64)> {
    let mut out = Vec::new();
    let mut i = 0;
    while let Some(r) = alloc.region(i) {
        out.push((r.start().get_index(), r.size()));
        i += 1;
    }
    out
}

fn free_count(alloc: &StaticFrameAllocator) -> u64 {
    free_frames(alloc).iter().map(|r| r.1).sum()
}

fn region(virt: u64, phys: u64, num: u64) -> MappingRegion {
    MappingRegion { phys_begin: Frame::new(phys), virt_begin: Page::new(virt), num }
}

#[test]
fn table_entry_starts_empty() {
    let e = TableEntry::empty();
    assert!(e.is_empty());
    assert!(!e.get_present());
    assert!(!e.get_writable());
    assert!(!e.get_usermode());
    assert!(!e.get_global());
    assert!(!e.get_huge());
    assert!(e.get_executable());
    assert_eq!(e.get_frame(), Frame::new(0));
}

#[test]
fn table_entry_bits_are_where_the_processor_reads_them() {
    assert_eq!(TableEntry::empty().set_present(true).0, 1);
    assert_eq!(TableEntry::empty().set_writable(true).0, 1 << 1);
    assert_eq!(TableEntry::empty().set_usermode(true).0, 1 << 2);
    assert_eq!(TableEntry::empty().set_global(true).0, 1 << 8);
    assert_eq!(TableEntry::empty().set_executable(false).0, 1 << 63);
    assert_eq!(TableEntry::empty().set_executable(true).0, 0);
    assert_eq!(TableEntry::empty().set_frame(Frame::new(0xab_cdef_0123)).0, 0xab_cdef_0123 << 12);
    assert!(TableEntry(1 << 7).get_huge());
}

#[test]
fn table_entry_setters_leave_other_fields() {
    let e = TableEntry(u64::MAX);
    let f = e.set_frame(Frame::new(5));
    assert_eq!(f.get_frame(), Frame::new(5));
    assert!(f.get_present() && f.get_writable() && f.get_usermode() && f.get_global());
    assert!(!f.get_executable());
    let g = e.set_writable(false);
    assert!(!g.get_writable());
    assert_eq!(g.get_frame(), e.get_frame());
    assert!(g.get_present() && g.get_usermode());
    assert!(!e.set_present(false).get_present());
    assert!(!e.set_usermode(false).get_usermode());
    assert!(!e.set_global(false).get_global());
    assert!(e.set_executable(true).get_executable());
}

#[test]
fn table_entry_frame_has_forty_bits() {
    let e = TableEntry::empty().set_frame(Frame::new((1 << 40) - 1));
    assert_eq!(e.get_frame().get_index(), (1 << 40) - 1);
    assert_eq!(TableEntry(u64::MAX).get_frame().get_index(), (1 << 40) - 1);
}

#[test]
fn set_flags_of_a_leaf_follows_the_flags() {
    let mut e = TableEntry::empty().set_frame(Frame::new(7));
    PageTable::set_flags(&mut e, PageFlags::usermode(), true);
    assert!(e.get_present() && e.get_usermode());
    assert!(!e.get_writable() && !e.get_executable());
    assert_eq!(e.get_frame(), Frame::new(7));
    let mut e = TableEntry::empty();
    PageFlags::empty();
    PageTable::set_flags(&mut e, PageFlags::executable().union(PageFlags::writable()), true);
    assert!(e.get_present() && e.get_writable() && e.get_executable() && !e.get_usermode());
}

#[test]
fn set_flags_of_a_table_entry_permits_everything() {
    let mut e = TableEntry::empty();
    PageTable::set_flags(&mut e, PageFlags::empty(), false);
    assert!(e.get_present() && e.get_writable() && e.get_usermode() && e.get_executable());
    assert_eq!(e.0, 0b111);
}

#[test]
fn page_indices_split_the_page_number() {
    let page = Page::new((3 << 27) | (5 << 18) | (7 << 9) | 11);
    assert_eq!(get_page_index_4(page), 3);
    assert_eq!(get_page_index_3(page), 5);
    assert_eq!(get_page_index_2(page), 7);
    assert_eq!(get_page_index_1(page), 11);
    assert_eq!(index_to_page(&[3, 5, 7, 11]), page);
    // Only the low 36 bits count.
    let high = Page::new(0xffff_8000_0000_0000 >> 12);
    assert_eq!(get_page_index_4(high), 256);
    assert_eq!(get_page_index_3(high), 0);
}

#[test]
fn arena_reads_back_what_was_written() {
    let mut mem = TableArena::new(4);
    assert_eq!(mem.frame_count(), 4);
    mem.write(Frame::new(2), 511, 0xdead_beef);
    mem.write(Frame::new(3), 0, 7);
    assert_eq!(mem.read(Frame::new(2), 511), 0xdead_beef);
    assert_eq!(mem.read(Frame::new(3), 0), 7);
    assert_eq!(mem.read(Frame::new(2), 510), 0);
    mem.clear(Frame::new(2));
    assert_eq!(mem.read(Frame::new(2), 511), 0);
    assert_eq!(mem.read(Frame::new(3), 0), 7);
}

#[test]
fn new_table_translates_nothing() {
    let (mut mem, mut alloc) = world();
    let pt = PageTable::new(&mut mem, &mut alloc).unwrap();
    assert_eq!(pt.root_frame(), Frame::new(255));
    assert_eq!(pt.resolve(&mem, Page::new(0)), None);
    assert_eq!(pt.resolve(&mem, Page::new(0x1234_5678)), None);
    assert_eq!(free_count(&alloc), 254);
}

#[test]
fn new_table_fails_without_frames() {
    let mut mem = TableArena::new(4);
    let mut alloc = StaticFrameAllocator::new();
    assert!(PageTable::new(&mut mem, &mut alloc).is_err());
}

#[test]
fn from_takes_a_root_over() {
    let pt = PageTable::from(Frame::new(9));
    assert_eq!(pt.root_frame(), Frame::new(9));
}

#[test]
fn examined_tree_translates_as_before() {
    let (mut mem, mut alloc) = world();
    let mut pt = PageTable::new(&mut mem, &mut alloc).unwrap();
    pt.map(&mut mem, &mut alloc, &region(0x200, 0x5000, 8), PageFlags::writable()).unwrap();
    pt.map(&mut mem, &mut alloc, &region(0x4000_0000, 0x6000, 600), PageFlags::empty()).unwrap();
    let mut again = PageTable::examine(pt.root_frame(), &mem, &mut TableList::<512>::new()).unwrap();
    assert_eq!(again.root_frame(), pt.root_frame());
    assert_eq!(again.resolve(&mem, Page::new(0x203)), Some(Frame::new(0x5003)));
    assert_eq!(again.resolve(&mem, Page::new(0x4000_0000 + 599)), Some(Frame::new(0x6000 + 599)));
    assert_eq!(again.resolve(&mem, Page::new(0x208)), None);
    again.map(&mut mem, &mut alloc, &region(0x208, 0x7000, 1), PageFlags::writable()).unwrap();
    assert_eq!(pt.resolve(&mem, Page::new(0x208)), Some(Frame::new(0x7000)));
    // The examined tree knows its tables: a release gives them all back.
    let before = free_count(&alloc);
    again.release(&mem, &mut alloc).unwrap();
    assert_eq!(free_count(&alloc) - before, 8);
}

fn link(frame: u64) -> u64 {
    TableEntry::empty().set_frame(Frame::new(frame)).set_present(true).set_writable(true).0
}

#[test]
fn examine_takes_an_empty_root() {
    let mem = TableArena::new(4);
    let pt = PageTable::examine(Frame::new(2), &mem, &mut TableList::<512>::new()).unwrap();
    assert_eq!(pt.root_frame(), Frame::new(2));
    assert_eq!(pt.resolve(&mem, Page::new(0)), None);
}

#[test]
fn examine_follows_large_pages_no_further() {
    let mut mem = TableArena::new(8);
    // Root 1, level-three table 2 with a large page, level-two table 3 with
    // a large page and a level-one table 4.
    mem.write(Frame::new(1), 0, link(2));
    mem.write(Frame::new(2), 0, link(0x4_0000) | 1 << 7);
    mem.write(Frame::new(2), 1, link(3));
    mem.write(Frame::new(3), 0, link(0x200) | 1 << 7);
    mem.write(Frame::new(3), 1, link(4));
    mem.write(Frame::new(4), 5, link(77));
    let pt = PageTable::examine(Frame::new(1), &mem, &mut TableList::<512>::new()).unwrap();
    assert_eq!(pt.resolve(&mem, Page::new(3)), Some(Frame::new(0x4_0003)));
    assert_eq!(pt.resolve(&mem, Page::new(512 * 512 + 7)), Some(Frame::new(0x207)));
    assert_eq!(pt.resolve(&mem, Page::new(512 * 512 + 512 + 5)), Some(Frame::new(77)));
    assert_eq!(pt.resolve(&mem, Page::new(512 * 512 + 512 + 6)), None);
}

#[test]
fn examine_refuses_a_root_outside_memory() {
    let mem = TableArena::new(4);
    assert!(PageTable::examine(Frame::new(4), &mem, &mut TableList::<512>::new()).is_none());
}

#[test]
fn examine_refuses_a_table_outside_memory() {
    let mut mem = TableArena::new(4);
    mem.write(Frame::new(1), 7, link(2));
    mem.write(Frame::new(2), 0, link(9));
    assert!(PageTable::examine(Frame::new(1), &mem, &mut TableList::<512>::new()).is_none());
}

#[test]
fn examine_refuses_a_table_reached_twice() {
    let mut mem = TableArena::new(8);
    mem.write(Frame::new(1), 0, link(2));
    mem.write(Frame::new(1), 1, link(3));
    mem.write(Frame::new(2), 0, link(4));
    assert!(PageTable::examine(Frame::new(1), &mem, &mut TableList::<512>::new()).is_some());
    // The same level-two table under two level-three tables.
    mem.write(Frame::new(3), 0, link(4));
    assert!(PageTable::examine(Frame::new(1), &mem, &mut TableList::<512>::new()).is_none());
    // The same table twice under one table.
    mem.write(Frame::new(3), 0, 0);
    mem.write(Frame::new(2), 9, link(4));
    assert!(PageTable::examine(Frame::new(1), &mem, &mut TableList::<512>::new()).is_none());
}

#[test]
fn examine_refuses_a_table_that_leads_back() {
    let mut mem = TableArena::new(8);
    mem.write(Frame::new(1), 0, link(2));
    mem.write(Frame::new(2), 0, link(1));
    assert!(PageTable::examine(Frame::new(1), &mem, &mut TableList::<512>::new()).is_none());
    mem.write(Frame::new(2), 0, link(2));
    assert!(PageTable::examine(Frame::new(1), &mem, &mut TableList::<512>::new()).is_none());
    mem.write(Frame::new(2), 0, 0);
    mem.write(Frame::new(1), 3, link(1));
    assert!(PageTable::examine(Frame::new(1), &mem, &mut TableList::<512>::new()).is_none());
}

#[test]
fn examine_takes_no_more_tables_than_it_can_list() {
    let mut mem = TableArena::new(600);
    // Root 1, level-three table 2, level-two table 3, and level-one
    // tables from frame 10 on.
    mem.write(Frame::new(1), 0, link(2));
    mem.write(Frame::new(2), 0, link(3));
    for i in 0..509 {
        mem.write(Frame::new(3), i, link(10 + i as u64));
    }
    // 512 tables in all.
    assert!(PageTable::examine(Frame::new(1), &mem, &mut TableList::<512>::new()).is_some());
    mem.write(Frame::new(3), 509, link(10 + 509));
    assert!(PageTable::examine(Frame::new(1), &mem, &mut TableList::<512>::new()).is_none());
    // With room for one table more the tree is taken over.
    let pt = PageTable::examine(Frame::new(1), &mem, &mut TableList::<513>::new()).unwrap();
    mem.write(Frame::new(519), 3, link(77));
    assert_eq!(pt.resolve(&mem, Page::new(509 * 512 + 3)), Some(Frame::new(77)));
    // A list without room takes no tree, and a list that was used is used
    // again.
    assert!(PageTable::examine(Frame::new(1), &mem, &mut TableList::<0>::new()).is_none());
    let mut seen = TableList::<600>::new();
    assert!(PageTable::examine(Frame::new(1), &mem, &mut seen).is_some());
    assert!(PageTable::examine(Frame::new(1), &mem, &mut seen).is_some());
}

#[test]
fn tree_taken_by_its_root_translates_like_the_tree() {
    let (mut mem, mut alloc) = world();
    let mut pt = PageTable::new(&mut mem, &mut alloc).unwrap();
    let before = free_count(&alloc);
    let taken = PageTable::from(pt.root_frame());
    // Taking the root takes no frame and writes nothing.
    assert_eq!(free_count(&alloc), before);
    assert_eq!(taken.resolve(&mem, Page::new(0x200)), None);
    pt.map(&mut mem, &mut alloc, &region(0x200, 0x5000, 8), PageFlags::writable()).unwrap();
    pt.map(&mut mem, &mut alloc, &region(0xf_fff8_0000_0000, 0x7000, 3), PageFlags::empty())
        .unwrap();
    for page in [0x1ff, 0x200, 0x207, 0x208, 0xf_fff8_0000_0000, 0xf_fff8_0000_0002, 0x4000_0000] {
        assert_eq!(taken.resolve(&mem, Page::new(page)), pt.resolve(&mem, Page::new(page)));
        assert_eq!(taken.lookup(&mem, Page::new(page)), pt.lookup(&mem, Page::new(page)));
    }
    assert_eq!(taken.resolve(&mem, Page::new(0x203)), Some(Frame::new(0x5003)));
}

#[test]
fn mapped_pages_resolve_to_their_frames_with_their_flags() {
    let (mut mem, mut alloc) = world();
    let mut pt = PageTable::new(&mut mem, &mut alloc).unwrap();
    let flags = PageFlags::usermode().union(PageFlags::writable());
    pt.map(&mut mem, &mut alloc, &region(0x200, 0x5000, 8), flags).unwrap();
    for k in 0..8 {
        assert_eq!(pt.resolve(&mem, Page::new(0x200 + k)), Some(Frame::new(0x5000 + k)));
        assert_eq!(pt.lookup(&mem, Page::new(0x200 + k)), Some((Frame::new(0x5000 + k), flags)));
    }
    assert_eq!(pt.resolve(&mem, Page::new(0x1ff)), None);
    assert_eq!(pt.resolve(&mem, Page::new(0x208)), None);
}

#[test]
fn each_permission_shows_in_the_leaf() {
    let (mut mem, mut alloc) = world();
    let mut pt = PageTable::new(&mut mem, &mut alloc).unwrap();
    for bits in 0..8u8 {
        let flags = PageFlags::from_bits_truncate(bits);
        let page = 0x1000 + bits as u64;
        pt.map(&mut mem, &mut alloc, &region(page, 0x77, 1), flags).unwrap();
        assert_eq!(pt.lookup(&mem, Page::new(page)), Some((Frame::new(0x77), flags)));
    }
}

#[test]
fn mapping_crosses_table_boundaries() {
    let (mut mem, mut alloc) = world();
    let mut pt = PageTable::new(&mut mem, &mut alloc).unwrap();
    let before = free_count(&alloc);
    // From the last pages of one level-one table over a whole one into a third.
    pt.map(&mut mem, &mut alloc, &region(510, 1000, 516), PageFlags::writable()).unwrap();
    for k in 0..516 {
        assert_eq!(pt.resolve(&mem, Page::new(510 + k)), Some(Frame::new(1000 + k)));
    }
    assert_eq!(pt.resolve(&mem, Page::new(509)), None);
    assert_eq!(pt.resolve(&mem, Page::new(1026)), None);
    // One level-three, one level-two and three level-one tables.
    assert_eq!(before - free_count(&alloc), 5);
}

#[test]
fn mapping_in_the_kernel_half() {
    let (mut mem, mut alloc) = world();
    let mut pt = PageTable::new(&mut mem, &mut alloc).unwrap();
    let page = 0xffff_8000_0000_0000u64 >> 12;
    pt.map(&mut mem, &mut alloc, &region(page, 0x10, 3), PageFlags::executable()).unwrap();
    assert_eq!(pt.resolve(&mem, Page::new(page + 2)), Some(Frame::new(0x12)));
    // Translation looks at the low 36 bits of the page number only.
    assert_eq!(pt.resolve(&mem, Page::new((page + 2) & ((1 << 36) - 1))), Some(Frame::new(0x12)));
    assert_eq!(pt.resolve(&mem, Page::new(2)), None);
}

#[test]
fn later_mappings_leave_earlier_ones() {
    let (mut mem, mut alloc) = world();
    let mut pt = PageTable::new(&mut mem, &mut alloc).unwrap();
    pt.map(&mut mem, &mut alloc, &region(0x10, 0x100, 4), PageFlags::writable()).unwrap();
    pt.map(&mut mem, &mut alloc, &region(0x14, 0x900, 4), PageFlags::usermode()).unwrap();
    pt.map(&mut mem, &mut alloc, &region(0x4_0000, 0x300, 2), PageFlags::empty()).unwrap();
    assert_eq!(pt.lookup(&mem, Page::new(0x13)), Some((Frame::new(0x103), PageFlags::writable())));
    assert_eq!(pt.lookup(&mem, Page::new(0x14)), Some((Frame::new(0x900), PageFlags::usermode())));
    assert_eq!(pt.lookup(&mem, Page::new(0x4_0001)), Some((Frame::new(0x301), PageFlags::empty())));
}

#[test]
fn unmapped_pages_resolve_to_nothing() {
    let (mut mem, mut alloc) = world();
    let mut pt = PageTable::new(&mut mem, &mut alloc).unwrap();
    pt.map(&mut mem, &mut alloc, &region(0x200, 0x5000, 8), PageFlags::writable()).unwrap();
    let taken = free_count(&alloc);
    pt.unmap(&mut mem, &PageRegion::new(Page::new(0x202), 4));
    assert_eq!(pt.resolve(&mem, Page::new(0x201)), Some(Frame::new(0x5001)));
    for k in 2..6 {
        assert_eq!(pt.resolve(&mem, Page::new(0x200 + k)), None);
    }
    assert_eq!(pt.resolve(&mem, Page::new(0x206)), Some(Frame::new(0x5006)));
    // Tables stay where they are.
    assert_eq!(free_count(&alloc), taken);
}

#[test]
fn unmap_of_pages_without_tables_changes_nothing() {
    let (mut mem, mut alloc) = world();
    let mut pt = PageTable::new(&mut mem, &mut alloc).unwrap();
    pt.map(&mut mem, &mut alloc, &region(0x200, 0x5000, 2), PageFlags::writable()).unwrap();
    pt.unmap(&mut mem, &PageRegion::new(Page::new(0x8_0000), 16));
    assert_eq!(pt.resolve(&mem, Page::new(0x200)), Some(Frame::new(0x5000)));
    assert_eq!(pt.resolve(&mem, Page::new(0x201)), Some(Frame::new(0x5001)));
}

#[test]
fn map_after_unmap_maps_again() {
    let (mut mem, mut alloc) = world();
    let mut pt = PageTable::new(&mut mem, &mut alloc).unwrap();
    pt.map(&mut mem, &mut alloc, &region(0x200, 0x5000, 2), PageFlags::writable()).unwrap();
    pt.unmap(&mut mem, &PageRegion::new(Page::new(0x200), 2));
    let taken = free_count(&alloc);
    pt.map(&mut mem, &mut alloc, &region(0x200, 0x7000, 2), PageFlags::usermode()).unwrap();
    assert_eq!(pt.lookup(&mem, Page::new(0x201)), Some((Frame::new(0x7001), PageFlags::usermode())));
    assert_eq!(free_count(&alloc), taken);
}

#[test]
fn release_gives_back_exactly_the_tables() {
    let (mut mem, mut alloc) = world();
    let before = free_frames(&alloc);
    let mut pt = PageTable::new(&mut mem, &mut alloc).unwrap();
    pt.map(&mut mem, &mut alloc, &region(0x200, 0x5000, 8), PageFlags::writable()).unwrap();
    pt.map(&mut mem, &mut alloc, &region(0x4000_0000, 0x6000, 600), PageFlags::writable()).unwrap();
    pt.map(&mut mem, &mut alloc, &region(0xf_fff8_0000_0000, 0x7000, 1), PageFlags::empty())
        .unwrap();
    pt.unmap(&mut mem, &PageRegion::new(Page::new(0x200), 8));
    // The root; three tables for the first run; four for the second, which
    // fills two level-one tables; three for the third.
    assert_eq!(free_count(&alloc), 255 - 11);
    pt.release(&mem, &mut alloc).unwrap();
    assert_eq!(free_frames(&alloc), before);
}

#[test]
fn release_leaves_the_mapped_frames_alone() {
    let (mut mem, mut alloc) = world();
    let leaf = alloc.allocate(4).unwrap();
    let before = free_frames(&alloc);
    let mut pt = PageTable::new(&mut mem, &mut alloc).unwrap();
    pt.map(
        &mut mem,
        &mut alloc,
        &MappingRegion { phys_begin: leaf.start(), virt_begin: Page::new(0x30), num: 4 },
        PageFlags::writable(),
    )
    .unwrap();
    pt.release(&mem, &mut alloc).unwrap();
    assert_eq!(free_frames(&alloc), before);
    for k in 0..4 {
        assert!(!alloc.is_free(Frame::new(leaf.start().get_index() + k)));
    }
}

#[test]
fn release_stops_where_the_allocator_refuses() {
    let mut mem = TableArena::new(64);
    let mut alloc = StaticFrameAllocator::with_capacity(1);
    alloc.free(&FrameRegion::new(Frame::new(10), 4)).unwrap();
    let mut pt = PageTable::new(&mut mem, &mut alloc).unwrap();
    pt.map(&mut mem, &mut alloc, &region(0, 0x50, 1), PageFlags::empty()).unwrap();
    assert!(alloc.is_exhausted());
    // The frame of another owner comes back first and takes the one place
    // in the list of regions.
    alloc.free(&FrameRegion::new(Frame::new(40), 1)).unwrap();
    assert!(pt.release(&mem, &mut alloc).is_err());
    assert_eq!(free_frames(&alloc), vec![(40, 1)]);
}

#[test]
fn map_fails_when_tables_run_out() {
    let mut mem = TableArena::new(16);
    let mut alloc = StaticFrameAllocator::new();
    alloc.free(&FrameRegion::new(Frame::new(1), 3)).unwrap();
    let mut pt = PageTable::new(&mut mem, &mut alloc).unwrap();
    // Three tables are needed and two frames are left.
    assert!(pt.map(&mut mem, &mut alloc, &region(0x200, 0x5000, 1), PageFlags::empty()).is_err());
    assert!(alloc.is_exhausted());
    assert_eq!(pt.resolve(&mem, Page::new(0x200)), None);
}

#[test]
fn try_map_refuses_mapped_pages() {
    let (mut mem, mut alloc) = world();
    let mut pt = PageTable::new(&mut mem, &mut alloc).unwrap();
    pt.try_map(&mut mem, &mut alloc, &region(0x200, 0x5000, 8), PageFlags::writable()).unwrap();
    let taken = free_count(&alloc);
    assert_eq!(
        pt.try_map(&mut mem, &mut alloc, &region(0x1fc, 0x9000, 5), PageFlags::writable()),
        Err(MapError::Overlap)
    );
    assert_eq!(pt.resolve(&mem, Page::new(0x1fc)), None);
    assert_eq!(pt.resolve(&mem, Page::new(0x200)), Some(Frame::new(0x5000)));
    assert_eq!(free_count(&alloc), taken);
    assert!(pt.is_unmapped(&mem, Page::new(0x1fc), 4));
    assert!(!pt.is_unmapped(&mem, Page::new(0x1fc), 5));
}

#[test]
fn try_map_refuses_regions_out_of_range() {
    let (mut mem, mut alloc) = world();
    let mut pt = PageTable::new(&mut mem, &mut alloc).unwrap();
    assert_eq!(
        pt.try_map(&mut mem, &mut alloc, &region(u64::MAX - 1, 0, 4), PageFlags::empty()),
        Err(MapError::OutOfRange)
    );
    assert_eq!(
        pt.try_map(&mut mem, &mut alloc, &region(0, (1 << 40) - 1, 2), PageFlags::empty()),
        Err(MapError::OutOfRange)
    );
    assert_eq!(
        pt.try_map(&mut mem, &mut alloc, &region(0, 0, (1 << 36) + 1), PageFlags::empty()),
        Err(MapError::OutOfRange)
    );
}

#[test]
fn try_map_reports_missing_frames() {
    let mut mem = TableArena::new(16);
    let mut alloc = StaticFrameAllocator::new();
    alloc.free(&FrameRegion::new(Frame::new(1), 2)).unwrap();
    let mut pt = PageTable::new(&mut mem, &mut alloc).unwrap();
    assert_eq!(
        pt.try_map(&mut mem, &mut alloc, &region(0x200, 0x5000, 1), PageFlags::empty()),
        Err(MapError::OutOfFrames)
    );
}

#[test]
fn large_pages_resolve_with_their_offset() {
    let (mut mem, mut alloc) = world();
    let mut pt = PageTable::new(&mut mem, &mut alloc).unwrap();
    pt.map(&mut mem, &mut alloc, &region(0, 0x5000, 1), PageFlags::writable()).unwrap();
    let root = pt.root_frame();
    let pdpt = TableEntry(mem.read(root, 0)).get_frame();
    let pdt = TableEntry(mem.read(pdpt, 0)).get_frame();
    // A 2 MiB page at level two and a 1 GiB page at level three.
    let large = TableEntry::empty().set_frame(Frame::new(0x8_0000)).set_present(true);
    mem.write(pdt, 3, large.0 | (1 << 7));
    mem.write(pdpt, 2, large.0 | (1 << 7));
    assert_eq!(pt.resolve(&mem, Page::new(3 * 512 + 17)), Some(Frame::new(0x8_0000 + 17)));
    assert_eq!(
        pt.resolve(&mem, Page::new(2 * 512 * 512 + 5 * 512 + 9)),
        Some(Frame::new(0x8_0000 + 5 * 512 + 9))
    );
}

#[test]
fn unmap_leaves_large_pages() {
    let (mut mem, mut alloc) = world();
    let mut pt = PageTable::new(&mut mem, &mut alloc).unwrap();
    pt.map(&mut mem, &mut alloc, &region(0, 0x5000, 1), PageFlags::writable()).unwrap();
    let root = pt.root_frame();
    let pdpt = TableEntry(mem.read(root, 0)).get_frame();
    let pdt = TableEntry(mem.read(pdpt, 0)).get_frame();
    let large = TableEntry::empty().set_frame(Frame::new(0x8_0000)).set_present(true);
    mem.write(pdt, 3, large.0 | (1 << 7));
    pt.unmap(&mut mem, &PageRegion::new(Page::new(3 * 512), 4));
    assert_eq!(pt.resolve(&mem, Page::new(3 * 512 + 1)), Some(Frame::new(0x8_0001)));
}

#[test]
fn map_does_not_fail_with_three_tables_for_every_block() {
    // Two pages on either side of a block boundary that is also a boundary
    // of the tables above: six tables.
    let mut mem = TableArena::new(16);
    let mut alloc = StaticFrameAllocator::new();
    alloc.free(&FrameRegion::new(Frame::new(1), 7)).unwrap();
    let mut pt = PageTable::new(&mut mem, &mut alloc).unwrap();
    assert_eq!(alloc.free_count(), 6);
    let last_of_first = (1u64 << 27) - 1;
    pt.map(&mut mem, &mut alloc, &region(last_of_first, 0x5000, 2), PageFlags::empty()).unwrap();
    assert_eq!(alloc.free_count(), 0);
    assert_eq!(pt.resolve(&mem, Page::new(last_of_first)), Some(Frame::new(0x5000)));
    assert_eq!(pt.resolve(&mem, Page::new(last_of_first + 1)), Some(Frame::new(0x5001)));
}

#[test]
fn free_count_is_the_number_of_free_frames() {
    let mut alloc = StaticFrameAllocator::new();
    assert_eq!(alloc.free_count(), 0);
    alloc.free(&FrameRegion::new(Frame::new(10), 5)).unwrap();
    alloc.free(&FrameRegion::new(Frame::new(100), 50)).unwrap();
    assert_eq!(alloc.free_count(), 55);
    alloc.allocate(7).unwrap();
    assert_eq!(alloc.free_count(), 48);
}

#[test]
fn translations_follow_a_map_of_pages_through_many_changes() {
    let mut mem = TableArena::new(1024);
    let mut alloc = StaticFrameAllocator::new();
    alloc.free(&FrameRegion::new(Frame::new(1), 1023)).unwrap();
    let before = alloc.free_count();
    let mut pt = PageTable::new(&mut mem, &mut alloc).unwrap();
    // Translation looks at the low 36 bits of a page number, and so does the
    // model.
    let slot = |page: u64| page & ((1 << 36) - 1);
    let mut model: std::collections::HashMap<u64, (u64, u8)> = std::collections::HashMap::new();
    let bases = [0u64, 500, 1 << 9, (1 << 18) - 3, (1 << 27) - 7, 0xf_fff8_0000_0000, 0x7_ffff_fff0];
    let mut seed = 0x1234_5678u32;
    let mut next = |bound: u64| {
        seed = seed.wrapping_mul(1664525).wrapping_add(1013904223);
        ((seed >> 8) as u64) % bound
    };
    for _ in 0..400 {
        let begin = bases[next(bases.len() as u64) as usize] + next(40);
        let num = 1 + next(20);
        if next(3) == 0 {
            pt.unmap(&mut mem, &PageRegion::new(Page::new(begin), num));
            for k in 0..num {
                model.remove(&slot(begin + k));
            }
        } else {
            let phys = next(1 << 30);
            let bits = next(8) as u8;
            let region = region(begin, phys, num);
            let free = (0..num).all(|k| !model.contains_key(&slot(begin + k)));
            let r = pt.try_map(&mut mem, &mut alloc, &region, PageFlags::from_bits_truncate(bits));
            if free {
                assert_eq!(r, Ok(()));
                for k in 0..num {
                    model.insert(slot(begin + k), (phys + k, bits));
                }
            } else {
                assert_eq!(r, Err(MapError::Overlap));
            }
        }
        for base in bases {
            for k in 0..64 {
                let want = model
                    .get(&slot(base + k))
                    .map(|(f, bits)| (Frame::new(*f), PageFlags::from_bits_truncate(*bits)));
                assert_eq!(pt.lookup(&mem, Page::new(base + k)), want);
            }
        }
    }
    pt.release(&mem, &mut alloc).unwrap();
    assert_eq!(alloc.free_count(), before);
}

fn entries_on_the_walk(mem: &TableArena, pt: &PageTable, page: Page) -> [TableEntry; 3] {
    let e4 = TableEntry(mem.read(pt.root_frame(), get_page_index_4(page)));
    let e3 = TableEntry(mem.read(e4.get_frame(), get_page_index_3(page)));
    let e2 = TableEntry(mem.read(e3.get_frame(), get_page_index_2(page)));
    [e4, e3, e2]
}

#[test]
fn entries_above_a_leaf_let_writes_and_user_mode_through() {
    let (mut mem, mut alloc) = world();
    let mut pt = PageTable::new(&mut mem, &mut alloc).unwrap();
    // Read-only kernel pages and writable user pages, in different tables.
    pt.map(&mut mem, &mut alloc, &region(0x200, 0x5000, 3), PageFlags::empty()).unwrap();
    pt.map(
        &mut mem,
        &mut alloc,
        &region(0x4000_0000, 0x6000, 600),
        PageFlags::usermode().union(PageFlags::writable()),
    )
    .unwrap();
    for page in [0x200, 0x202, 0x4000_0000, 0x4000_0000 + 599] {
        for e in entries_on_the_walk(&mem, &pt, Page::new(page)) {
            assert!(e.get_present());
            assert!(e.get_writable());
            assert!(e.get_usermode());
            assert!(!e.get_huge());
        }
    }
    // The leaves alone carry the permissions.
    assert_eq!(pt.lookup(&mem, Page::new(0x200)), Some((Frame::new(0x5000), PageFlags::empty())));
    assert_eq!(
        pt.lookup(&mem, Page::new(0x4000_0000)),
        Some((Frame::new(0x6000), PageFlags::usermode().union(PageFlags::writable())))
    );
}

#[test]
fn map_makes_only_the_tables_that_its_pages_need() {
    let (mut mem, mut alloc) = world();
    let mut pt = PageTable::new(&mut mem, &mut alloc).unwrap();
    pt.map(&mut mem, &mut alloc, &region(510, 1000, 516), PageFlags::writable()).unwrap();
    let before = free_count(&alloc);
    // Pages under tables that exist take no frame.
    pt.map(&mut mem, &mut alloc, &region(1026, 3000, 500), PageFlags::writable()).unwrap();
    assert_eq!(free_count(&alloc), before);
    // A page under another level-two table takes a level-two and a
    // level-one table.
    pt.map(&mut mem, &mut alloc, &region(512 * 512, 4000, 1), PageFlags::writable()).unwrap();
    assert_eq!(before - free_count(&alloc), 2);
}

#[test]
fn map_keeps_the_entries_that_it_finds() {
    let mut mem = TableArena::new(16);
    let mut alloc = StaticFrameAllocator::new();
    alloc.free(&FrameRegion::new(Frame::new(8), 8)).unwrap();
    // A root with one level-three table behind an entry that user mode
    // does not pass.
    mem.write(Frame::new(1), 0, link(2));
    let mut pt = PageTable::examine(Frame::new(1), &mem, &mut TableList::<512>::new()).unwrap();
    pt.map(&mut mem, &mut alloc, &region(5, 0x300, 1), PageFlags::usermode()).unwrap();
    let [e4, e3, e2] = entries_on_the_walk(&mem, &pt, Page::new(5));
    assert_eq!(e4.0, link(2));
    assert!(!e4.get_usermode());
    for e in [e3, e2] {
        assert!(e.get_present() && e.get_writable() && e.get_usermode());
    }
    assert_eq!(pt.lookup(&mem, Page::new(5)), Some((Frame::new(0x300), PageFlags::usermode())));
}

#[test]
fn release_gives_the_root_back_last() {
    let mut mem = TableArena::new(64);
    let mut alloc = StaticFrameAllocator::with_capacity(4);
    alloc.free(&FrameRegion::new(Frame::new(20), 1)).unwrap();
    let mut pt = PageTable::new(&mut mem, &mut alloc).unwrap();
    assert_eq!(pt.root_frame(), Frame::new(20));
    for frame in [10, 12, 14] {
        alloc.free(&FrameRegion::new(Frame::new(frame), 1)).unwrap();
    }
    pt.map(&mut mem, &mut alloc, &region(0, 0x50, 1), PageFlags::empty()).unwrap();
    assert!(alloc.is_exhausted());
    // The frame of another owner takes one of the four places in the list
    // of regions and the three tables below the root, none next to
    // another, take the others: the root finds none.
    alloc.free(&FrameRegion::new(Frame::new(40), 1)).unwrap();
    assert!(pt.release(&mem, &mut alloc).is_err());
    assert_eq!(free_frames(&alloc), vec![(10, 1), (12, 1), (14, 1), (40, 1)]);
    assert!(!alloc.is_free(Frame::new(20)));
}
