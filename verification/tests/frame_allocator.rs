use kernel::mm::definitions::{Frame, FrameAllocError, FrameAllocator, FrameRegion};
use kernel::mm::frame_allocator::StaticFrameAllocator;

fn region(begin: u64, num: u64) -> FrameRegion {
    FrameRegion::new(Frame::new(begin), num)
}

fn regions_of(a: &StaticFrameAllocator) -> Vec<(u64, u64)> {
    let mut out = Vec::new();
    let mut i = 0;
    while let Some(r) = a.region(i) {
        out.push((r.start().get_index(), r.size()));
        i += 1;
    }
    out
}

#[test]
fn new_allocator_is_empty() {
    let mut a = StaticFrameAllocator::new();
    assert_eq!(a.region_count(), 0);
    assert!(a.is_exhausted());
    assert!(matches!(a.allocate(1), Err(FrameAllocError::OutOfMemory)));
}

#[test]
fn allocate_takes_from_high_end_of_first_fit() {
    let mut a = StaticFrameAllocator::new();
    a.free(&region(10, 2)).unwrap();
    a.free(&region(100, 8)).unwrap();
    a.free(&region(200, 8)).unwrap();
    let r = a.allocate(3).unwrap();
    assert_eq!(r.start().get_index(), 105);
    assert_eq!(r.size(), 3);
    assert_eq!(regions_of(&a), vec![(10, 2), (100, 5), (200, 8)]);
}

#[test]
fn allocate_whole_region_removes_it() {
    let mut a = StaticFrameAllocator::new();
    a.free(&region(10, 2)).unwrap();
    a.free(&region(100, 8)).unwrap();
    let r = a.allocate(2).unwrap();
    assert_eq!((r.start().get_index(), r.size()), (10, 2));
    assert_eq!(regions_of(&a), vec![(100, 8)]);
}

#[test]
fn allocate_zero_frames_fails() {
    let mut a = StaticFrameAllocator::new();
    a.free(&region(10, 2)).unwrap();
    assert!(matches!(a.allocate(0), Err(FrameAllocError::Unknown)));
    assert_eq!(regions_of(&a), vec![(10, 2)]);
}

#[test]
fn allocate_more_than_any_region_fails() {
    let mut a = StaticFrameAllocator::new();
    a.free(&region(10, 2)).unwrap();
    a.free(&region(20, 2)).unwrap();
    assert!(matches!(a.allocate(3), Err(FrameAllocError::OutOfMemory)));
    assert_eq!(regions_of(&a), vec![(10, 2), (20, 2)]);
}

#[test]
fn free_keeps_regions_sorted() {
    let mut a = StaticFrameAllocator::new();
    a.free(&region(50, 1)).unwrap();
    a.free(&region(10, 1)).unwrap();
    a.free(&region(30, 1)).unwrap();
    assert_eq!(regions_of(&a), vec![(10, 1), (30, 1), (50, 1)]);
}

#[test]
fn free_merges_with_both_neighbours() {
    let mut a = StaticFrameAllocator::new();
    a.free(&region(10, 5)).unwrap();
    a.free(&region(20, 5)).unwrap();
    a.free(&region(15, 5)).unwrap();
    assert_eq!(regions_of(&a), vec![(10, 15)]);
}

#[test]
fn free_merges_with_lower_neighbour() {
    let mut a = StaticFrameAllocator::new();
    a.free(&region(10, 5)).unwrap();
    a.free(&region(30, 5)).unwrap();
    a.free(&region(15, 5)).unwrap();
    assert_eq!(regions_of(&a), vec![(10, 10), (30, 5)]);
}

#[test]
fn free_merges_with_upper_neighbour() {
    let mut a = StaticFrameAllocator::new();
    a.free(&region(10, 5)).unwrap();
    a.free(&region(30, 5)).unwrap();
    a.free(&region(25, 5)).unwrap();
    assert_eq!(regions_of(&a), vec![(10, 5), (25, 10)]);
}

#[test]
fn no_two_regions_touch_after_frees() {
    let mut a = StaticFrameAllocator::new();
    for k in [7u64, 3, 5, 1, 4, 9, 2, 8, 6] {
        a.free(&region(k * 10, 10)).unwrap();
        let rs = regions_of(&a);
        for w in rs.windows(2) {
            assert!(w[0].0 + w[0].1 < w[1].0);
        }
    }
    assert_eq!(regions_of(&a), vec![(10, 90)]);
}

#[test]
fn free_of_free_frames_is_refused() {
    let mut a = StaticFrameAllocator::new();
    a.free(&region(10, 5)).unwrap();
    assert!(a.free(&region(12, 1)).is_err());
    assert!(a.free(&region(8, 3)).is_err());
    assert!(a.free(&region(14, 3)).is_err());
    assert_eq!(regions_of(&a), vec![(10, 5)]);
}

#[test]
fn free_of_invalid_region_is_refused() {
    let mut a = StaticFrameAllocator::new();
    assert!(a.free(&region(10, 0)).is_err());
    assert!(a.free(&region(u64::MAX, 2)).is_err());
    assert_eq!(a.region_count(), 0);
}

#[test]
fn free_fails_when_list_is_full() {
    let mut a = StaticFrameAllocator::new();
    for k in 0..64u64 {
        a.free(&region(k * 10, 1)).unwrap();
    }
    assert_eq!(a.region_count(), 64);
    assert!(a.free(&region(1000, 1)).is_err());
    // Full even for a region that would merge.
    assert!(a.free(&region(1, 1)).is_err());
    assert_eq!(a.region_count(), 64);
}

#[test]
fn smaller_capacity_is_honoured() {
    let mut a = StaticFrameAllocator::with_capacity(2);
    a.free(&region(0, 1)).unwrap();
    a.free(&region(10, 1)).unwrap();
    assert!(a.free(&region(20, 1)).is_err());
}

#[test]
fn frames_are_conserved_over_allocate_and_free() {
    let mut a = StaticFrameAllocator::new();
    a.free(&region(0, 100)).unwrap();
    let x = a.allocate(10).unwrap();
    let y = a.allocate(20).unwrap();
    let z = a.allocate(30).unwrap();
    let free: u64 = regions_of(&a).iter().map(|r| r.1).sum();
    assert_eq!(free + x.size() + y.size() + z.size(), 100);
    for f in 0..100u64 {
        let held = [x, y, z]
            .iter()
            .filter(|r| r.start().get_index() <= f && f < r.start().get_index() + r.size())
            .count();
        let is_free = a.is_free(Frame::new(f));
        assert_eq!(held + if is_free { 1 } else { 0 }, 1);
    }
    a.free(&y).unwrap();
    a.free(&x).unwrap();
    a.free(&z).unwrap();
    assert_eq!(regions_of(&a), vec![(0, 100)]);
}

#[test]
fn allocate_then_free_restores_the_regions() {
    let mut a = StaticFrameAllocator::new();
    a.free(&region(5, 7)).unwrap();
    a.free(&region(40, 9)).unwrap();
    let before = regions_of(&a);
    let r = a.allocate(8).unwrap();
    a.free(&r).unwrap();
    assert_eq!(regions_of(&a), before);
}

#[test]
fn allocator_follows_a_set_of_frames_through_many_changes() {
    let mut a = StaticFrameAllocator::new();
    let mut free = vec![false; 4096];
    let mut held: Vec<FrameRegion> = Vec::new();
    a.free(&region(0, 4096)).unwrap();
    for f in free.iter_mut() {
        *f = true;
    }
    let mut seed = 99u32;
    let mut next = |bound: u64| {
        seed = seed.wrapping_mul(1664525).wrapping_add(1013904223);
        ((seed >> 8) as u64) % bound
    };
    for _ in 0..2000 {
        if next(2) == 0 || held.is_empty() {
            let count = 1 + next(40);
            // The first run of free frames that is long enough, and its end.
            let mut want = None;
            let mut run = 0u64;
            for f in 0..=4096u64 {
                if f < 4096 && free[f as usize] {
                    run += 1;
                } else {
                    if run >= count {
                        want = Some(f - count);
                        break;
                    }
                    run = 0;
                }
            }
            match a.allocate(count) {
                Ok(r) => {
                    assert_eq!(Some(r.start().get_index()), want);
                    assert_eq!(r.size(), count);
                    for f in r.start().get_index()..r.start().get_index() + count {
                        assert!(free[f as usize]);
                        free[f as usize] = false;
                    }
                    held.push(r);
                }
                Err(e) => {
                    assert_eq!(want, None);
                    assert!(matches!(e, FrameAllocError::OutOfMemory));
                }
            }
        } else {
            let r = held.swap_remove(next(held.len() as u64) as usize);
            if a.free(&r).is_ok() {
                for f in r.start().get_index()..r.start().get_index() + r.size() {
                    free[f as usize] = true;
                }
            } else {
                assert_eq!(a.region_count(), 64);
                held.push(r);
            }
        }
        let rs = regions_of(&a);
        for w in rs.windows(2) {
            assert!(w[0].0 + w[0].1 < w[1].0);
        }
        for f in 0..4096u64 {
            assert_eq!(a.is_free(Frame::new(f)), free[f as usize]);
        }
        assert_eq!(a.free_count(), free.iter().filter(|x| **x).count() as u64);
    }
}
