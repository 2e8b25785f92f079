use kernel::arch::x86_64::mm::page_table::{MapError, PageTable};
use kernel::arch::x86_64::mm::table_memory::TableArena;
use kernel::mm::definitions::{Frame, FrameAllocator, FrameRegion, Page, PageFlags};
use kernel::mm::frame_allocator::StaticFrameAllocator;
use kernel::task::elf::{
    load_elf, ElfError, ElfHeader, MemoryReader, ProgramHeader, ReadError, Readable,
};

struct Segment {
    tybe: u32,
    flags: u32,
    vaddr: u64,
    data: Vec<u8>,
    memsz: u64,
}

fn put(out: &mut Vec<u8>, at: usize, bytes: &[u8]) {
    out[at..at + bytes.len()].copy_from_slice(bytes);
}

/// An image with the given entry and segments: the header, the program
/// headers, the bytes of the segments, and one byte more.
fn image(entry: u64, segments: &[Segment]) -> Vec<u8> {
    let mut out = vec![0u8; 64 + 56 * segments.len()];
    put(&mut out, 0, &[0x7f, b'E', b'L', b'F', 2, 1, 1]);
    put(&mut out, 24, &entry.to_le_bytes());
    put(&mut out, 32, &64u64.to_le_bytes());
    put(&mut out, 54, &56u16.to_le_bytes());
    put(&mut out, 56, &(segments.len() as u16).to_le_bytes());
    for (i, s) in segments.iter().enumerate() {
        let at = 64 + 56 * i;
        let offset = out.len() as u64;
        put(&mut out, at, &s.tybe.to_le_bytes());
        put(&mut out, at + 4, &s.flags.to_le_bytes());
        put(&mut out, at + 8, &offset.to_le_bytes());
        put(&mut out, at + 16, &s.vaddr.to_le_bytes());
        put(&mut out, at + 32, &(s.data.len() as u64).to_le_bytes());
        put(&mut out, at + 40, &s.memsz.to_le_bytes());
        out.extend_from_slice(&s.data);
    }
    out.push(0);
    out
}

fn world() -> (TableArena, StaticFrameAllocator, PageTable) {
    let mut mem = TableArena::new(128);
    let mut alloc = StaticFrameAllocator::new();
    alloc.free(&FrameRegion::new(Frame::new(1), 127)).unwrap();
    let pt = PageTable::new(&mut mem, &mut alloc).unwrap();
    (mem, alloc, pt)
}

fn free_frames(alloc: &StaticFrameAllocator) -> Vec<(u64, u64)> {
    let mut out = Vec::new();
    let mut i = 0;
    while let Some(r) = alloc.region(i) {
        out.push((r.start().get_index(), r.size()));
        i += 1;
    }
    out
}

#[test]
fn memory_reader_reads_inside_the_image() {
    let r = MemoryReader::new(vec![1, 2, 3, 4, 5]);
    assert_eq!(r.read(0, 4), Ok(vec![1, 2, 3, 4]));
    assert_eq!(r.read(1, 2), Ok(vec![2, 3]));
    assert_eq!(r.read(3, 0), Ok(vec![]));
}

#[test]
fn memory_reader_refuses_to_read_up_to_the_end() {
    let r = MemoryReader::new(vec![1, 2, 3, 4, 5]);
    assert_eq!(r.read(0, 5), Err(ReadError::OutOfBound));
    assert_eq!(r.read(4, 1), Err(ReadError::OutOfBound));
    assert_eq!(r.read(5, 0), Err(ReadError::OutOfBound));
    assert_eq!(r.read(usize::MAX, 2), Err(ReadError::OutOfBound));
    assert_eq!(r.read(2, usize::MAX), Err(ReadError::OutOfBound));
}

#[test]
fn header_fields_are_read_at_their_offsets() {
    let mut b = vec![0u8; 64];
    put(&mut b, 24, &0x1122_3344_5566_7788u64.to_le_bytes());
    put(&mut b, 32, &0x40u64.to_le_bytes());
    put(&mut b, 54, &0x38u16.to_le_bytes());
    put(&mut b, 56, &0x0102u16.to_le_bytes());
    let h = ElfHeader::parse(&b);
    assert_eq!(
        h,
        ElfHeader { entry: 0x1122_3344_5566_7788, phoff: 0x40, phentsize: 0x38, phnum: 0x0102 }
    );
}

#[test]
fn program_header_fields_are_read_at_their_offsets() {
    let mut b = vec![0u8; 56];
    put(&mut b, 0, &1u32.to_le_bytes());
    put(&mut b, 4, &5u32.to_le_bytes());
    put(&mut b, 8, &0x1000u64.to_le_bytes());
    put(&mut b, 16, &0x40_0000u64.to_le_bytes());
    put(&mut b, 24, &0xdead_beefu64.to_le_bytes());
    put(&mut b, 32, &0x123u64.to_le_bytes());
    put(&mut b, 40, &0x456u64.to_le_bytes());
    put(&mut b, 48, &0x1000u64.to_le_bytes());
    let ph = ProgramHeader::parse(&b);
    assert_eq!(
        ph,
        ProgramHeader {
            tybe: 1,
            flags: 5,
            offset: 0x1000,
            vaddr: 0x40_0000,
            filesz: 0x123,
            memsz: 0x456
        }
    );
}

#[test]
fn segment_flags_become_page_flags() {
    let ph = |flags| ProgramHeader { tybe: 1, flags, offset: 0, vaddr: 0, filesz: 0, memsz: 1 };
    assert_eq!(ph(4).get_page_flags(), PageFlags::usermode());
    assert_eq!(ph(5).get_page_flags(), PageFlags::usermode().union(PageFlags::executable()));
    assert_eq!(ph(6).get_page_flags(), PageFlags::usermode().union(PageFlags::writable()));
    assert_eq!(ph(7).get_page_flags().bits(), 7);
    assert_eq!(ph(0).get_page_flags(), PageFlags::usermode());
}

#[test]
fn image_is_loaded_segment_by_segment() {
    let (mut mem, mut alloc, mut pt) = world();
    let text: Vec<u8> = (0..100u8).collect();
    let file = image(
        0x20_1120,
        &[
            Segment { tybe: 1, flags: 5, vaddr: 0x20_1120, data: text.clone(), memsz: 100 },
            Segment { tybe: 6, flags: 4, vaddr: 0x20_0040, data: vec![], memsz: 0x100 },
            Segment { tybe: 1, flags: 6, vaddr: 0x20_3ff0, data: vec![9, 9], memsz: 0x2020 },
        ],
    );
    let loaded = load_elf(&MemoryReader::new(file), &mut pt, &mut mem, &mut alloc).unwrap();
    assert_eq!(loaded.entry, 0x20_1120);
    assert_eq!(loaded.segments.len(), 2);

    let s = &loaded.segments[0];
    assert_eq!(s.virt_begin, Page::new(0x201));
    assert_eq!(s.frames.size(), 1);
    assert_eq!(s.page_offset, 0x120);
    assert_eq!(s.data, text);
    assert_eq!(s.memsz, 100);
    assert_eq!(s.flags, PageFlags::usermode().union(PageFlags::executable()));
    assert_eq!(pt.lookup(&mem, Page::new(0x201)), Some((s.frames.start(), s.flags)));

    // 0xff0 + 0x2020 bytes touch four pages.
    let s = &loaded.segments[1];
    assert_eq!(s.virt_begin, Page::new(0x203));
    assert_eq!(s.frames.size(), 4);
    assert_eq!(s.page_offset, 0xff0);
    assert_eq!(s.data, vec![9, 9]);
    assert_eq!(s.memsz, 0x2020);
    assert_eq!(s.get_region().num, 4);
    for k in 0..4 {
        assert_eq!(
            pt.lookup(&mem, Page::new(0x203 + k)),
            Some((
                Frame::new(s.frames.start().get_index() + k),
                PageFlags::usermode().union(PageFlags::writable())
            ))
        );
    }
    assert_eq!(pt.resolve(&mem, Page::new(0x202)), None);
    assert_eq!(pt.resolve(&mem, Page::new(0x207)), None);
    for seg in &loaded.segments {
        for k in 0..seg.frames.size() {
            assert!(!alloc.is_free(Frame::new(seg.frames.start().get_index() + k)));
        }
    }
}

#[test]
fn image_without_segments_loads() {
    let (mut mem, mut alloc, mut pt) = world();
    let before = free_frames(&alloc);
    let file = image(0x1234, &[Segment { tybe: 1, flags: 5, vaddr: 0x1000, data: vec![], memsz: 0 }]);
    let loaded = load_elf(&MemoryReader::new(file), &mut pt, &mut mem, &mut alloc).unwrap();
    assert_eq!(loaded.entry, 0x1234);
    assert!(loaded.segments.is_empty());
    assert_eq!(free_frames(&alloc), before);
}

#[test]
fn truncated_image_is_a_read_error() {
    let (mut mem, mut alloc, mut pt) = world();
    let r = load_elf(&MemoryReader::new(vec![0u8; 64]), &mut pt, &mut mem, &mut alloc);
    assert_eq!(r.err(), Some(ElfError::Read));
    let mut file =
        image(0, &[Segment { tybe: 1, flags: 5, vaddr: 0x1000, data: vec![1, 2, 3], memsz: 3 }]);
    file.pop();
    let r = load_elf(&MemoryReader::new(file), &mut pt, &mut mem, &mut alloc);
    assert_eq!(r.err(), Some(ElfError::Read));
}

#[test]
fn program_header_beyond_every_offset_is_a_read_error() {
    let (mut mem, mut alloc, mut pt) = world();
    let mut file = vec![0u8; 65];
    put(&mut file, 32, &u64::MAX.to_le_bytes());
    put(&mut file, 54, &56u16.to_le_bytes());
    put(&mut file, 56, &2u16.to_le_bytes());
    // The first header is at an offset that cannot be read, the second at
    // one that does not exist.
    let r = load_elf(&MemoryReader::new(file.clone()), &mut pt, &mut mem, &mut alloc);
    assert_eq!(r.err(), Some(ElfError::Read));
    put(&mut file, 54, &0u16.to_le_bytes());
    put(&mut file, 32, &(u64::MAX - 10).to_le_bytes());
    put(&mut file, 54, &56u16.to_le_bytes());
    put(&mut file, 56, &1u16.to_le_bytes());
    let r = load_elf(&MemoryReader::new(file), &mut pt, &mut mem, &mut alloc);
    assert_eq!(r.err(), Some(ElfError::Read));
}

#[test]
fn segment_longer_in_the_file_than_in_memory_is_refused() {
    let (mut mem, mut alloc, mut pt) = world();
    let before = free_frames(&alloc);
    let file =
        image(0, &[Segment { tybe: 1, flags: 5, vaddr: 0x1000, data: vec![1, 2, 3], memsz: 2 }]);
    let r = load_elf(&MemoryReader::new(file), &mut pt, &mut mem, &mut alloc);
    assert_eq!(r.err(), Some(ElfError::BadSegment));
    assert_eq!(free_frames(&alloc), before);
}

#[test]
fn segment_outside_user_space_is_refused() {
    let (mut mem, mut alloc, mut pt) = world();
    for (vaddr, memsz) in [
        (0xffff_8000_0000_0000u64, 16u64),
        (0x7fff_ffff_f000, 0x1001),
        (0x8000_0000_0000, 1),
        (u64::MAX, 2),
    ] {
        let file = image(0, &[Segment { tybe: 1, flags: 6, vaddr, data: vec![], memsz }]);
        let r = load_elf(&MemoryReader::new(file), &mut pt, &mut mem, &mut alloc);
        assert_eq!(r.err(), Some(ElfError::BadSegment));
    }
    let file = image(
        0,
        &[Segment { tybe: 1, flags: 6, vaddr: 0x7fff_ffff_f000, data: vec![], memsz: 0x1000 }],
    );
    assert!(load_elf(&MemoryReader::new(file), &mut pt, &mut mem, &mut alloc).is_ok());
}

#[test]
fn overlapping_segments_are_refused_and_frames_come_back() {
    let (mut mem, mut alloc, mut pt) = world();
    let file = image(
        0,
        &[
            Segment { tybe: 1, flags: 5, vaddr: 0x1000, data: vec![1], memsz: 0x2000 },
            Segment { tybe: 1, flags: 6, vaddr: 0x2800, data: vec![2], memsz: 0x10 },
        ],
    );
    let r = load_elf(&MemoryReader::new(file), &mut pt, &mut mem, &mut alloc);
    assert_eq!(r.err(), Some(ElfError::Unmappable(MapError::Overlap)));
    // Only the root and the three tables of the first segment are taken.
    let free: u64 = free_frames(&alloc).iter().map(|r| r.1).sum();
    assert_eq!(free, 127 - 4);
}

#[test]
fn segment_without_frames_is_out_of_memory() {
    let mut mem = TableArena::new(16);
    let mut alloc = StaticFrameAllocator::new();
    alloc.free(&FrameRegion::new(Frame::new(1), 8)).unwrap();
    let mut pt = PageTable::new(&mut mem, &mut alloc).unwrap();
    let file = image(0, &[Segment { tybe: 1, flags: 5, vaddr: 0x1000, data: vec![1], memsz: 0x8000 }]);
    let r = load_elf(&MemoryReader::new(file), &mut pt, &mut mem, &mut alloc);
    assert_eq!(r.err(), Some(ElfError::OutOfMemory));
    let file = image(0, &[Segment { tybe: 1, flags: 5, vaddr: 0x1000, data: vec![1], memsz: 0x5000 }]);
    let r = load_elf(&MemoryReader::new(file), &mut pt, &mut mem, &mut alloc);
    assert_eq!(r.err(), Some(ElfError::Unmappable(MapError::OutOfFrames)));
}

#[test]
fn segment_on_frames_that_no_entry_can_name_is_refused() {
    let (mut mem, mut alloc, mut pt) = world();
    // The only run of 200 frames lies beyond the frames that fit an entry.
    alloc.free(&FrameRegion::new(Frame::new(1 << 40), 1000)).unwrap();
    let file =
        image(0, &[Segment { tybe: 1, flags: 6, vaddr: 0x40_0000, data: vec![1], memsz: 200 * 4096 }]);
    let r = load_elf(&MemoryReader::new(file), &mut pt, &mut mem, &mut alloc);
    assert_eq!(r.err(), Some(ElfError::Unmappable(MapError::OutOfRange)));
    assert_eq!(free_frames(&alloc), vec![(1, 126), (1 << 40, 1000)]);
}

#[test]
fn first_thing_wrong_with_the_file_decides() {
    let (mut mem, mut alloc, mut pt) = world();
    let sound = Segment { tybe: 1, flags: 5, vaddr: 0x1000, data: vec![1, 2, 3], memsz: 3 };
    let unsound = Segment { tybe: 1, flags: 5, vaddr: 0x9000, data: vec![1, 2, 3], memsz: 2 };
    // The second segment is not sound, and the bytes of the third are cut
    // off: the segment that is not sound comes first.
    let cut = Segment { tybe: 1, flags: 5, vaddr: 0x20_0000, data: vec![7; 40], memsz: 40 };
    let mut file = image(0, &[sound, unsound, cut]);
    file.truncate(file.len() - 20);
    let r = load_elf(&MemoryReader::new(file), &mut pt, &mut mem, &mut alloc);
    assert_eq!(r.err(), Some(ElfError::BadSegment));
    // With the order turned round the read fails first.
    let (mut mem, mut alloc, mut pt) = world();
    let cut = Segment { tybe: 1, flags: 5, vaddr: 0x20_0000, data: vec![7; 40], memsz: 40 };
    let unsound = Segment { tybe: 1, flags: 5, vaddr: 0x9000, data: vec![], memsz: 0 };
    let mut file = image(0, &[cut, unsound]);
    // The second header asks for a segment in the file that is longer than
    // the segment in memory.
    put(&mut file, 64 + 56 + 32, &5u64.to_le_bytes());
    put(&mut file, 64 + 56 + 40, &4u64.to_le_bytes());
    file.truncate(file.len() - 20);
    let r = load_elf(&MemoryReader::new(file), &mut pt, &mut mem, &mut alloc);
    assert_eq!(r.err(), Some(ElfError::Read));
}

#[test]
fn frames_run_out_only_where_no_run_is_free() {
    // Nine frames are free in two runs of five and four; the root takes one
    // of the five.
    let mut mem = TableArena::new(16);
    let mut alloc = StaticFrameAllocator::new();
    alloc.free(&FrameRegion::new(Frame::new(1), 5)).unwrap();
    alloc.free(&FrameRegion::new(Frame::new(7), 4)).unwrap();
    let mut pt = PageTable::new(&mut mem, &mut alloc).unwrap();
    // Five pages find no run, though eight frames are free.
    let file = image(0, &[Segment { tybe: 1, flags: 5, vaddr: 0x1000, data: vec![1], memsz: 0x5000 }]);
    let r = load_elf(&MemoryReader::new(file), &mut pt, &mut mem, &mut alloc);
    assert_eq!(r.err(), Some(ElfError::OutOfMemory));
    // Four pages find one, and three frames are left for the tables.
    let file = image(0, &[Segment { tybe: 1, flags: 5, vaddr: 0x1000, data: vec![1], memsz: 0x4000 }]);
    let loaded = load_elf(&MemoryReader::new(file), &mut pt, &mut mem, &mut alloc).unwrap();
    assert_eq!(loaded.segments[0].frames.size(), 4);
    let free: u64 = free_frames(&alloc).iter().map(|r| r.1).sum();
    assert_eq!(free, 1);
}
