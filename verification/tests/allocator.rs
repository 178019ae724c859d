use bootmem::frames::{FrameAllocator, MemoryMap, MemoryRegion, RegionKind};

fn map_of(regions: Vec<MemoryRegion>) -> MemoryMap {
    MemoryMap { regions }
}

fn usable(start: u64, end: u64) -> MemoryRegion {
    MemoryRegion { start, end, kind: RegionKind::Usable }
}

fn reserved(start: u64, end: u64) -> MemoryRegion {
    MemoryRegion { start, end, kind: RegionKind::Reserved }
}

#[test]
fn frames_come_from_usable_regions() {
    let map = map_of(vec![
        usable(0x0, 0x5000),
        reserved(0x5000, 0x8000),
        usable(0x8000, 0xa000),
    ]);
    let mut a = FrameAllocator::new(map);
    let expected = [0x0u64, 0x1000, 0x2000, 0x3000, 0x4000, 0x8000, 0x9000];
    for &want in expected.iter() {
        let got = a.allocate_frame().expect("frame expected");
        assert_eq!(got, want);
        assert!(got % 4096 == 0);
        // Every frame lies wholly inside a usable region.
        assert!((got + 4096 <= 0x5000) || (0x8000 <= got && got + 4096 <= 0xa000));
    }
    assert_eq!(a.allocate_frame(), None);
}

#[test]
fn frames_are_distinct_and_ascending() {
    let map = map_of(vec![usable(0x1000, 0x6000), usable(0x10000, 0x14000)]);
    let mut a = FrameAllocator::new(map);
    let mut last: Option<u64> = None;
    let mut count = 0;
    while let Some(f) = a.allocate_frame() {
        if let Some(prev) = last {
            assert!(prev < f, "frames must be strictly ascending");
        }
        last = Some(f);
        count += 1;
    }
    assert_eq!(count, 9);
}

#[test]
fn unaligned_region_is_trimmed_to_whole_frames() {
    // Only the one whole frame [0x1000, 0x2000) fits in [1, 0x2001).
    let map = map_of(vec![usable(1, 0x2001)]);
    let mut a = FrameAllocator::new(map);
    assert_eq!(a.allocate_frame(), Some(0x1000));
    assert_eq!(a.allocate_frame(), None);
}

#[test]
fn failed_allocation_still_advances_cursor() {
    // The cursor counts every call, so a failed call permanently burns
    // an index: a deliberate quirk of the allocator, pinned here.
    let map = map_of(vec![usable(0x0, 0x1000)]);
    let mut a = FrameAllocator::new(map);
    assert_eq!(a.frames_issued(), 0);
    assert_eq!(a.allocate_frame(), Some(0x0));
    assert_eq!(a.frames_issued(), 1);
    assert_eq!(a.allocate_frame(), None);
    assert_eq!(a.frames_issued(), 2);
    assert_eq!(a.allocate_frame(), None);
    assert_eq!(a.frames_issued(), 3);
}

#[test]
fn empty_map_allocates_nothing() {
    let mut a = FrameAllocator::new(map_of(vec![]));
    assert_eq!(a.allocate_frame(), None);
    let mut b = FrameAllocator::new(map_of(vec![reserved(0, 0x100000)]));
    assert_eq!(b.allocate_frame(), None);
}
