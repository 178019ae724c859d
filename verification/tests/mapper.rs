use bootmem::frames::{FrameAllocator, MemoryMap, MemoryRegion, RegionKind};
use bootmem::paging::MapError;
use bootmem::heap::init;

const PAGE: u64 = 0x4444_4444_0000;

fn usable_map(start: u64, end: u64) -> MemoryMap {
    MemoryMap { regions: vec![MemoryRegion { start, end, kind: RegionKind::Usable }] }
}

#[test]
fn mapping_then_translating_round_trips() {
    let mut mapper = init(0, 0x1000);
    let mut alloc = FrameAllocator::new(usable_map(0x100000, 0x200000));
    assert_eq!(mapper.translate_page(PAGE), None);
    let fl = mapper.map_to(PAGE, 0x500000, true, &mut alloc).expect("mapping should succeed");
    fl.flush();
    assert_eq!(mapper.translate_page(PAGE), Some(0x500000));
    // The neighbouring page is untouched.
    assert_eq!(mapper.translate_page(PAGE + 0x1000), None);
    // Three intermediate tables were created from the allocator.
    assert_eq!(alloc.frames_issued(), 3);
}

#[test]
fn remapping_fails_with_already_mapped() {
    let mut mapper = init(0, 0x1000);
    let mut alloc = FrameAllocator::new(usable_map(0x100000, 0x200000));
    mapper.map_to(PAGE, 0x500000, true, &mut alloc).expect("first mapping").flush();
    let r = mapper.map_to(PAGE, 0x501000, true, &mut alloc);
    assert!(matches!(r, Err(MapError::AlreadyMapped)));
    // The original mapping survives.
    assert_eq!(mapper.translate_page(PAGE), Some(0x500000));
}

#[test]
fn huge_parent_entry_blocks_mapping() {
    let mut mapper = init(0, 0x1000);
    let mut alloc = FrameAllocator::new(usable_map(0x100000, 0x200000));
    let root_slot = ((PAGE >> 39) & 0x1ff) as usize;
    assert!(mapper.set_huge_root_entry(root_slot));
    let r = mapper.map_to(PAGE, 0x100000, true, &mut alloc);
    assert!(matches!(r, Err(MapError::ParentEntryHugePage)));
    assert_eq!(mapper.translate_page(PAGE), None);
    assert_eq!(alloc.frames_issued(), 0);
}

#[test]
fn exhausted_allocator_fails_frame_allocation() {
    let mut mapper = init(0, 0x1000);
    let mut alloc = FrameAllocator::new(MemoryMap { regions: vec![] });
    let r = mapper.map_to(PAGE, 0x100000, true, &mut alloc);
    assert!(matches!(r, Err(MapError::FrameAllocationFailed)));
    assert_eq!(mapper.translate_page(PAGE), None);
}

#[test]
fn partial_table_chain_is_reused() {
    let mut mapper = init(0, 0x1000);
    let mut alloc = FrameAllocator::new(usable_map(0x100000, 0x200000));
    mapper.map_to(PAGE, 0x500000, true, &mut alloc).expect("first mapping").flush();
    assert_eq!(alloc.frames_issued(), 3);
    // The second page shares all three intermediate tables, so no
    // further frame is drawn.
    mapper.map_to(PAGE + 0x1000, 0x501000, true, &mut alloc).expect("second mapping").flush();
    assert_eq!(alloc.frames_issued(), 3);
    assert_eq!(mapper.translate_page(PAGE + 0x1000), Some(0x501000));
}
