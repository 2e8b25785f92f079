use kernel::mm::allocator::{
    DirectBlockAllocator, HeapError, HoleStore, HoleTable, Layout, MemoryHole, HOLE_RECORD_SIZE,
};

const BASE: u64 = 0xffff_8200_0000_0000;

fn heap(size: usize) -> DirectBlockAllocator<HoleTable> {
    DirectBlockAllocator::new(BASE, size, HoleTable::new(size / 16))
}

fn holes(h: &DirectBlockAllocator<HoleTable>) -> Vec<(usize, usize)> {
    let mut out = Vec::new();
    let mut i = 0;
    while let Some(hole) = h.hole(i) {
        out.push((hole.base, hole.size));
        i += 1;
    }
    out
}

fn state(h: &DirectBlockAllocator<HoleTable>) -> (usize, usize, Vec<(usize, usize)>) {
    (h.get_floor(), h.get_ceiling(), holes(h))
}

#[test]
fn layout_holds_size_and_alignment() {
    let l = Layout::new(24, 8);
    assert_eq!(l.size(), 24);
    assert_eq!(l.align(), 8);
    assert_eq!(HOLE_RECORD_SIZE, 16);
}

#[test]
fn hole_table_reads_back_records() {
    let mut t = HoleTable::new(4);
    t.put(2, MemoryHole { base: 5, size: 6 });
    assert_eq!(t.get(2), MemoryHole { base: 5, size: 6 });
    assert_eq!(t.get(1), MemoryHole { base: 0, size: 0 });
}

#[test]
fn new_heap_is_all_free() {
    let h = heap(4096);
    assert_eq!(state(&h), (0, 4096, vec![]));
    assert_eq!(h.hole_count(), 0);
}

#[test]
fn aligned_block_comes_from_the_ceiling() {
    let mut h = heap(4096);
    assert_eq!(h.allocate(Layout::new(64, 16)), Some(BASE + 4032));
    assert_eq!(state(&h), (0, 4032, vec![]));
    assert_eq!(h.allocate(Layout::new(32, 32)), Some(BASE + 4000));
    assert_eq!(state(&h), (0, 4000, vec![]));
}

#[test]
fn unaligned_ceiling_leaves_a_hole_above_the_block() {
    let mut h = heap(4096);
    assert_eq!(h.allocate(Layout::new(10, 1)), Some(BASE + 4086));
    // 4086 - 64 = 4022 is 54 past a multiple of 64.
    assert_eq!(h.allocate(Layout::new(64, 64)), Some(BASE + 3968));
    assert_eq!(state(&h), (16, 3968, vec![(4032, 54)]));
}

#[test]
fn every_block_is_aligned() {
    let mut h = heap(1 << 16);
    let mut n = 0;
    for (size, align) in [(1, 1), (3, 2), (5, 4), (24, 8), (100, 16), (7, 64), (300, 256), (1, 4096)] {
        for _ in 0..3 {
            let addr = h.allocate(Layout::new(size, align)).unwrap();
            assert_eq!(addr % align as u64, 0);
            assert!(addr >= BASE && addr + size as u64 <= BASE + (1 << 16));
            n += 1;
        }
    }
    assert_eq!(n, 24);
}

#[test]
fn blocks_do_not_overlap() {
    let mut h = heap(1 << 14);
    let mut blocks: Vec<(u64, u64)> = Vec::new();
    let sizes = [16usize, 100, 7, 64, 33, 256, 1, 48];
    for (i, size) in sizes.iter().enumerate() {
        let addr = h.allocate(Layout::new(*size, 1 << (i % 5))).unwrap();
        blocks.push((addr, *size as u64));
    }
    // Release every second block and fill the holes again.
    for i in (0..blocks.len()).step_by(2) {
        h.free(blocks[i].0, Layout::new(blocks[i].1 as usize, 1 << (i % 5))).unwrap();
    }
    let kept: Vec<(u64, u64)> = blocks.iter().skip(1).step_by(2).cloned().collect();
    let mut all = kept.clone();
    for size in [8usize, 8, 30, 200, 5] {
        let addr = h.allocate(Layout::new(size, 1)).unwrap();
        all.push((addr, size as u64));
    }
    for (i, a) in all.iter().enumerate() {
        for b in all.iter().skip(i + 1) {
            assert!(a.0 + a.1 <= b.0 || b.0 + b.1 <= a.0);
        }
    }
}

#[test]
fn zero_size_or_zero_alignment_gets_nothing() {
    let mut h = heap(4096);
    assert_eq!(h.allocate(Layout::new(0, 8)), None);
    assert_eq!(h.allocate(Layout::new(8, 0)), None);
    assert_eq!(state(&h), (0, 4096, vec![]));
}

#[test]
fn exhausted_heap_gets_nothing() {
    let mut h = heap(256);
    assert_eq!(h.allocate(Layout::new(257, 1)), None);
    assert_eq!(h.allocate(Layout::new(256, 1)), Some(BASE));
    assert_eq!(h.allocate(Layout::new(1, 1)), None);
    assert_eq!(state(&h), (0, 0, vec![]));
}

#[test]
fn release_at_the_ceiling_raises_the_ceiling() {
    let mut h = heap(4096);
    let a = h.allocate(Layout::new(64, 16)).unwrap();
    h.free(a, Layout::new(64, 16)).unwrap();
    assert_eq!(state(&h), (0, 4096, vec![]));
}

#[test]
fn release_above_the_ceiling_leaves_a_hole() {
    let mut h = heap(4096);
    let a = h.allocate(Layout::new(64, 1)).unwrap();
    let _b = h.allocate(Layout::new(64, 1)).unwrap();
    h.free(a, Layout::new(64, 1)).unwrap();
    assert_eq!(state(&h), (16, 3968, vec![(4032, 64)]));
}

#[test]
fn holes_are_kept_highest_first() {
    let mut h = heap(4096);
    let blocks: Vec<u64> = (0..7).map(|_| h.allocate(Layout::new(64, 1)).unwrap()).collect();
    h.free(blocks[3], Layout::new(64, 1)).unwrap();
    h.free(blocks[1], Layout::new(64, 1)).unwrap();
    h.free(blocks[5], Layout::new(64, 1)).unwrap();
    assert_eq!(holes(&h), vec![(3968, 64), (3840, 64), (3712, 64)]);
    assert_eq!(h.get_floor(), 48);
}

#[test]
fn touching_holes_merge() {
    let mut h = heap(4096);
    let blocks: Vec<u64> = (0..5).map(|_| h.allocate(Layout::new(64, 1)).unwrap()).collect();
    h.free(blocks[1], Layout::new(64, 1)).unwrap();
    h.free(blocks[3], Layout::new(64, 1)).unwrap();
    assert_eq!(holes(&h), vec![(3968, 64), (3840, 64)]);
    // The block between the two joins both.
    h.free(blocks[2], Layout::new(64, 1)).unwrap();
    assert_eq!(state(&h), (16, 3776, vec![(3840, 192)]));
    // The block above joins the hole from above, the one below from below.
    h.free(blocks[0], Layout::new(64, 1)).unwrap();
    assert_eq!(state(&h), (16, 3776, vec![(3840, 256)]));
    // The lowest block touches the ceiling and the hole: all is free again.
    h.free(blocks[4], Layout::new(64, 1)).unwrap();
    assert_eq!(state(&h), (0, 4096, vec![]));
}

#[test]
fn hole_serves_a_block_when_the_ceiling_cannot() {
    let mut h = heap(256);
    let a = h.allocate(Layout::new(100, 1)).unwrap();
    let _b = h.allocate(Layout::new(100, 1)).unwrap();
    h.free(a, Layout::new(100, 1)).unwrap();
    assert_eq!(state(&h), (16, 56, vec![(156, 100)]));
    // 41 bytes do not fit between the floor and the ceiling.
    assert_eq!(h.allocate(Layout::new(41, 1)), Some(BASE + 156));
    assert_eq!(state(&h), (16, 56, vec![(197, 59)]));
}

#[test]
fn hole_is_split_on_both_sides() {
    let mut h = heap(1024);
    let a = h.allocate(Layout::new(200, 1)).unwrap();
    let _b = h.allocate(Layout::new(780, 1)).unwrap();
    h.free(a, Layout::new(200, 1)).unwrap();
    assert_eq!(state(&h), (16, 44, vec![(824, 200)]));
    // The first multiple of 64 in the hole is 832.
    assert_eq!(h.allocate(Layout::new(64, 64)), Some(BASE + 832));
    assert_eq!(state(&h), (32, 44, vec![(896, 128), (824, 8)]));
}

#[test]
fn exact_fit_removes_the_hole() {
    let mut h = heap(256);
    let a = h.allocate(Layout::new(100, 1)).unwrap();
    let _b = h.allocate(Layout::new(100, 1)).unwrap();
    h.free(a, Layout::new(100, 1)).unwrap();
    assert_eq!(h.allocate(Layout::new(100, 1)), Some(BASE + 156));
    assert_eq!(state(&h), (0, 56, vec![]));
}

#[test]
fn first_hole_that_fits_is_taken() {
    let mut h = heap(4096);
    let blocks: Vec<u64> = [32usize, 64, 16, 128, 16, 3800]
        .iter()
        .map(|s| h.allocate(Layout::new(*s, 1)).unwrap())
        .collect();
    h.free(blocks[0], Layout::new(32, 1)).unwrap();
    h.free(blocks[3], Layout::new(128, 1)).unwrap();
    h.free(blocks[1], Layout::new(64, 1)).unwrap();
    // From the top: 96 bytes (the first two blocks), then 128 bytes.
    assert_eq!(holes(&h), vec![(4000, 96), (3856, 128)]);
    assert_eq!(h.allocate(Layout::new(100, 1)), Some(BASE + 3856));
    assert_eq!(h.allocate(Layout::new(90, 1)), Some(BASE + 4000));
}

#[test]
fn round_trip_restores_the_heap() {
    let mut h = heap(4096);
    let keep: Vec<u64> = [24usize, 100, 7, 64, 300]
        .iter()
        .map(|s| h.allocate(Layout::new(*s, 8)).unwrap())
        .collect();
    h.free(keep[1], Layout::new(100, 8)).unwrap();
    h.free(keep[3], Layout::new(64, 8)).unwrap();
    for (size, align) in
        [(1usize, 1usize), (8, 8), (16, 64), (64, 8), (60, 4), (100, 1), (104, 8), (500, 256), (3000, 1)]
    {
        let before = state(&h);
        let addr = h.allocate(Layout::new(size, align)).unwrap();
        assert_ne!(state(&h), before);
        h.free(addr, Layout::new(size, align)).unwrap();
        assert_eq!(state(&h), before);
    }
}

#[test]
fn live_blocks_and_holes_fill_the_space_above_the_ceiling() {
    let mut h = heap(8192);
    let mut live: Vec<(u64, usize, usize)> = Vec::new();
    let mut seed = 12345u32;
    for step in 0..200 {
        seed = seed.wrapping_mul(1103515245).wrapping_add(12345);
        let pick = (seed >> 16) as usize;
        if step % 3 == 2 && !live.is_empty() {
            let (addr, size, align) = live.remove(pick % live.len());
            let before = state(&h);
            if h.free(addr, Layout::new(size, align)).is_err() {
                assert_eq!(state(&h), before);
                assert!(h.get_ceiling() - h.get_floor() < 16);
                live.push((addr, size, align));
            }
        } else {
            let size = 1 + pick % 200;
            let align = 1 << (pick % 6);
            if let Some(addr) = h.allocate(Layout::new(size, align)) {
                assert_eq!(addr % align as u64, 0);
                live.push((addr, size, align));
            }
        }
        let live_bytes: usize = live.iter().map(|b| b.1).sum();
        let hole_bytes: usize = holes(&h).iter().map(|x| x.1).sum();
        assert_eq!(live_bytes + hole_bytes, 8192 - h.get_ceiling());
        assert_eq!(live_bytes + hole_bytes, h.used_bytes());
        assert_eq!(h.get_floor(), 16 * holes(&h).len());
        assert!(h.get_floor() <= h.get_ceiling());
        let hs = holes(&h);
        for w in hs.windows(2) {
            assert!(w[1].0 + w[1].1 < w[0].0);
        }
        if let Some(last) = hs.last() {
            assert!(h.get_ceiling() < last.0);
        }
    }
    // The lowest block touches the ceiling or the hole above it.
    live.sort();
    for (addr, size, align) in live {
        h.free(addr, Layout::new(size, align)).unwrap();
    }
    assert_eq!(state(&h), (0, 8192, vec![]));
}

#[test]
fn release_without_room_for_a_record_fails() {
    let mut h = heap(64);
    let a = h.allocate(Layout::new(32, 1)).unwrap();
    let b = h.allocate(Layout::new(32, 1)).unwrap();
    assert_eq!(state(&h), (0, 0, vec![]));
    // The upper block touches nothing and there is no room for its record.
    assert_eq!(h.free(a, Layout::new(32, 1)), Err(HeapError::NoRoom));
    assert_eq!(state(&h), (0, 0, vec![]));
    // The lower block touches the ceiling and needs none.
    h.free(b, Layout::new(32, 1)).unwrap();
    assert_eq!(state(&h), (0, 32, vec![]));
    h.free(a, Layout::new(32, 1)).unwrap();
    assert_eq!(state(&h), (0, 64, vec![]));
}

#[test]
fn hole_that_would_split_in_two_is_passed_over_without_room() {
    let mut h = heap(256);
    let a = h.allocate(Layout::new(100, 1)).unwrap();
    let _b = h.allocate(Layout::new(140, 1)).unwrap();
    h.free(a, Layout::new(100, 1)).unwrap();
    assert_eq!(state(&h), (16, 16, vec![(156, 100)]));
    // At alignment 32 the block would leave 4 bytes below and 32 above.
    assert_eq!(h.allocate(Layout::new(64, 32)), None);
    // At alignment 4 nothing is left below.
    assert_eq!(h.allocate(Layout::new(64, 4)), Some(BASE + 156));
}
