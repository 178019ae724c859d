use bootmem::arena::HeapArena;
use bootmem::frames::{MemoryMap, MemoryRegion, RegionKind};
use bootmem::heap::{init, init_heap, BootRecord, HEAP_SIZE, HEAP_START};
use bootmem::paging::MapError;

const PAGE_COUNT: u64 = HEAP_SIZE / 4096;

fn boot_with(start: u64, end: u64) -> BootRecord {
    BootRecord {
        physical_memory_offset: 0,
        memory_map: MemoryMap {
            regions: vec![MemoryRegion { start, end, kind: RegionKind::Usable }],
        },
    }
}

// The root table lives above the usable regions of both scenarios, as
// the boot loader's own structures do.
const ROOT: u64 = 0x8000_0000;

#[test]
fn sixteen_mib_map_fills_the_whole_window() {
    // 16 MiB of usable memory comfortably covers the 10 MiB window
    // plus the intermediate tables.
    let boot = boot_with(0, 0x100_0000);
    let mut mapper = init(boot.physical_memory_offset, ROOT);
    let mut arena = HeapArena::empty();
    assert_eq!(init_heap(&boot, &mut mapper, &mut arena), Ok(()));
    let mut mapped = 0u64;
    let mut last: Option<u64> = None;
    for k in 0..PAGE_COUNT {
        let frame = mapper.translate_page(HEAP_START + k * 4096);
        assert!(frame.is_some(), "page {} must be mapped", k);
        let f = frame.unwrap();
        if let Some(prev) = last {
            assert!(prev < f, "heap frames arrive in ascending order");
        }
        last = Some(f);
        mapped += 1;
    }
    assert_eq!(mapped, 2560);
    // The window ends exactly there.
    assert_eq!(mapper.translate_page(HEAP_START + PAGE_COUNT * 4096), None);
    assert_eq!(mapper.translate_page(HEAP_START - 4096), None);
    // The arena covers the full window.
    assert!(arena.is_initialized());
    assert_eq!(arena.window_base(), HEAP_START);
    assert!(arena.window_size() >= 10 * 1024 * 1024);
    assert_eq!(arena.window_size(), HEAP_SIZE);
}

#[test]
fn one_mib_map_stops_at_exhaustion() {
    // 1 MiB holds 256 frames. Three of them become the intermediate
    // tables for the first page, so 253 pages are mapped before the
    // allocator runs dry; all 256 frames are consumed and nothing is
    // rolled back.
    let boot = boot_with(0, 0x10_0000);
    let mut mapper = init(boot.physical_memory_offset, ROOT);
    let mut arena = HeapArena::empty();
    assert_eq!(
        init_heap(&boot, &mut mapper, &mut arena),
        Err(MapError::FrameAllocationFailed)
    );
    let mut mapped = 0u64;
    let mut boundary: Option<u64> = None;
    for k in 0..PAGE_COUNT {
        if mapper.translate_page(HEAP_START + k * 4096).is_some() {
            assert!(boundary.is_none(), "mapped pages form one prefix");
            mapped += 1;
        } else if boundary.is_none() {
            boundary = Some(k);
        }
    }
    assert_eq!(boundary, Some(253));
    assert_eq!(mapped, 253);
    // The arena never came up.
    assert!(!arena.is_initialized());
    assert_eq!(arena.window_size(), 0);
}

#[test]
fn failure_leaves_arena_untouched_and_pages_mapped() {
    let boot = boot_with(0, 0x10_0000);
    let mut mapper = init(boot.physical_memory_offset, ROOT);
    let mut arena = HeapArena::empty();
    assert!(init_heap(&boot, &mut mapper, &mut arena).is_err());
    // Pages mapped before the failure stay mapped.
    assert!(mapper.translate_page(HEAP_START).is_some());
    assert!(mapper.translate_page(HEAP_START + 252 * 4096).is_some());
    assert!(mapper.translate_page(HEAP_START + 253 * 4096).is_none());
    assert!(!arena.is_initialized());
}
