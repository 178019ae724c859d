//! The heap region initializer.
//!
//! `init_heap` maps every page of the fixed heap window read-write, in
//! ascending order, drawing frames from the boot frame allocator, and
//! then hands the window to the global heap arena. The first mapping
//! failure aborts the sequence; pages mapped before it stay mapped.

use vstd::prelude::*;
use vstd::arithmetic::div_mod::lemma_mod_multiples_basic;
use crate::arena::HeapArena;
use crate::frames::{frame_in_usable_region, FrameAllocator, MemoryMap, FRAME_SIZE, MAX_PHYS_ADDR,
    lemma_allocated_frame_usable, lemma_allocated_frames_ascending};
use crate::paging::{huge_blocked, page_ok, translate, MapError, Mapper, MAX_VIRT_ADDR};

verus! {

/// First byte of the fixed virtual heap window.
pub const HEAP_START: u64 = 0x4444_4444_0000;

/// Size of the heap window in bytes: 10 MiB. The window is deliberately
/// this small; a hundred times more would outgrow the physical memory
/// the allocator can see on small machines.
pub const HEAP_SIZE: u64 = 10 * 1024 * 1024;

/// How many whole pages the window spans.
pub const HEAP_PAGE_COUNT: u64 = HEAP_SIZE / FRAME_SIZE;

/// What the firmware and the bootstrap loader hand the kernel: the
/// offset at which all physical memory is mirrored into virtual space,
/// and the physical memory map.
pub struct BootRecord {
    /// Virtual address at which physical address zero is mapped.
    pub physical_memory_offset: u64,
    /// The reported physical memory regions.
    pub memory_map: MemoryMap,
}

/// The `k`-th page of the heap window.
pub open spec fn heap_page(k: int) -> u64 {
    (HEAP_START + 4096 * k) as u64
}

/// Whether address `q` lies in the heap window.
pub open spec fn in_heap_window(q: u64) -> bool {
    HEAP_START <= q < HEAP_START + HEAP_SIZE
}

/// How a failed `init_heap` run left the mapper: the first `k` window
/// pages are mapped, the rest translate as before, and the error is
/// accounted for at page `k`.
pub open spec fn stopped_at(
    mem0: Map<u64, Seq<u64>>,
    mem: Map<u64, Seq<u64>>,
    l4: u64,
    frames: Seq<u64>,
    e: MapError,
    k: int,
) -> bool {
    &&& 0 <= k < HEAP_PAGE_COUNT
    &&& forall|j: int| 0 <= j < k ==> translate(mem, l4, heap_page(j)).is_some()
    &&& forall|j: int|
        k <= j < HEAP_PAGE_COUNT ==> translate(mem, l4, heap_page(j)) == translate(
            mem0,
            l4,
            heap_page(j),
        )
    &&& (e == MapError::FrameAllocationFailed ==> frames.len() < 4 * (k + 1))
    &&& (e == MapError::AlreadyMapped ==> translate(mem0, l4, heap_page(k)).is_some())
    &&& (e == MapError::ParentEntryHugePage ==> huge_blocked(mem, l4, heap_page(k)))
}

proof fn lemma_heap_page_ok(k: int)
    requires
        0 <= k < HEAP_PAGE_COUNT,
    ensures
        page_ok(heap_page(k)),
        in_heap_window(heap_page(k)),
        heap_page(k) as int == HEAP_START + 4096 * k,
{
    assert(HEAP_START as int == 4096 * 0x4_4444_4440);
    lemma_mod_multiples_basic(0x4_4444_4440 + k, 4096);
    assert(heap_page(k) as int == 4096 * (0x4_4444_4440 + k));
    assert(heap_page(k) < MAX_VIRT_ADDR);
}

/// Derives the page-table capability from the bootstrap state: the
/// physical address of the active root table, read from the CPU's
/// control register by the platform layer, and the offset at which the
/// tables are reachable in virtual space.
pub fn init(physical_memory_offset: u64, l4_table_addr: u64) -> (m: Mapper)
    requires
        l4_table_addr % 4096 == 0,
        l4_table_addr < MAX_PHYS_ADDR,
    ensures
        m.wf(),
        m.l4() == l4_table_addr,
        m.spec_phys_offset() == physical_memory_offset,
        forall|q: u64| translate(m.mem(), m.l4(), q) == None::<u64>,
        forall|q: u64| !huge_blocked(m.mem(), m.l4(), q),
{
    Mapper::new(l4_table_addr, physical_memory_offset)
}

/// Maps the whole heap window read-write, page by page in ascending
/// order, then initializes the arena with base `HEAP_START` and size
/// `HEAP_SIZE`. On success every window page is mapped and every page
/// outside the window translates as before. On the first failure the
/// error propagates, the arena stays untouched, and the pages already
/// mapped remain mapped.
pub fn init_heap(boot: &BootRecord, mapper: &mut Mapper, arena: &mut HeapArena) -> (r: Result<
    (),
    MapError,
>)
    requires
        old(mapper).wf(),
        boot.memory_map.wf(),
        boot.memory_map.usable_ascending(),
        forall|i: int|
            0 <= i < boot.memory_map.frames().len() ==> !old(mapper).mem().dom().contains(
                #[trigger] boot.memory_map.frames()[i],
            ),
        old(arena).wf(),
        !old(arena).is_ready(),
    ensures
        final(mapper).wf(),
        final(mapper).l4() == old(mapper).l4(),
        final(mapper).spec_phys_offset() == old(mapper).spec_phys_offset(),
        final(arena).wf(),
        forall|q: u64|
            page_ok(q) && !in_heap_window(q) ==> translate(final(mapper).mem(), final(mapper).l4(), q)
                == translate(old(mapper).mem(), old(mapper).l4(), q),
        match r {
            Ok(()) => {
                &&& forall|k: int|
                    0 <= k < HEAP_PAGE_COUNT ==> translate(
                        final(mapper).mem(),
                        final(mapper).l4(),
                        heap_page(k),
                    ).is_some()
                &&& forall|k: int|
                    0 <= k < HEAP_PAGE_COUNT ==> frame_in_usable_region(
                        boot.memory_map.regions@,
                        translate(final(mapper).mem(), final(mapper).l4(), heap_page(k)).unwrap(),
                    )
                &&& forall|k1: int, k2: int|
                    0 <= k1 < k2 < HEAP_PAGE_COUNT ==> translate(
                        final(mapper).mem(),
                        final(mapper).l4(),
                        heap_page(k1),
                    ) != translate(final(mapper).mem(), final(mapper).l4(), heap_page(k2))
                &&& final(arena).is_ready()
                &&& final(arena).spec_base() == HEAP_START
                &&& final(arena).spec_capacity() == HEAP_SIZE
                &&& final(arena).spec_free_start() == HEAP_START
            },
            Err(e) => {
                &&& *final(arena) == *old(arena)
                &&& exists|k: int|
                    stopped_at(
                        old(mapper).mem(),
                        final(mapper).mem(),
                        final(mapper).l4(),
                        boot.memory_map.frames(),
                        e,
                        k,
                    )
            },
        },
{
    let mut allocator = FrameAllocator::new(boot.memory_map.duplicate());
    let ghost mem_orig = mapper.mem();
    let ghost l4 = mapper.l4();
    let ghost frames = boot.memory_map.frames();
    proof {
        assert(allocator.map_spec().frames() == frames);
        assert forall|a: int, b: int| 0 <= a < b < frames.len() implies frames[a] != frames[b] by {
            lemma_allocated_frames_ascending(allocator.map_spec(), a, b);
        }
    }
    let ghost mut idxs: Seq<int> = Seq::empty();
    let mut k: u64 = 0;
    while k < HEAP_PAGE_COUNT
        invariant
            k <= HEAP_PAGE_COUNT,
            *arena == *old(arena),
            arena.wf(),
            !arena.is_ready(),
            mapper.wf(),
            mapper.l4() == l4,
            l4 == old(mapper).l4(),
            mapper.spec_phys_offset() == old(mapper).spec_phys_offset(),
            mem_orig == old(mapper).mem(),
            allocator.map_spec().wf(),
            allocator.map_spec().regions@ == boot.memory_map.regions@,
            allocator.map_spec().frames() == frames,
            frames == boot.memory_map.frames(),
            forall|a: int, b: int| 0 <= a < b < frames.len() ==> frames[a] != frames[b],
            allocator.issued_spec() as int <= 4 * k,
            forall|i: int|
                allocator.issued_spec() <= i < frames.len() ==> !mapper.mem().dom().contains(
                    #[trigger] frames[i],
                ),
            idxs.len() == k as int,
            forall|j: int| 0 <= j < k ==> 0 <= #[trigger] idxs[j] < frames.len(),
            forall|j: int| 0 <= j < k ==> #[trigger] idxs[j] < allocator.issued_spec(),
            forall|j1: int, j2: int| 0 <= j1 < j2 < k ==> idxs[j1] < idxs[j2],
            forall|j: int|
                0 <= j < k ==> translate(mapper.mem(), l4, heap_page(j)) == Some(
                    frames[#[trigger] idxs[j]],
                ),
            forall|j: int|
                k <= j < HEAP_PAGE_COUNT ==> translate(mapper.mem(), l4, heap_page(j))
                    == translate(mem_orig, l4, heap_page(j)),
            forall|q: u64|
                page_ok(q) && !in_heap_window(q) ==> translate(mapper.mem(), l4, q) == translate(
                    mem_orig,
                    l4,
                    q,
                ),
        decreases HEAP_PAGE_COUNT - k,
    {
        let page = HEAP_START + k * FRAME_SIZE;
        proof {
            lemma_heap_page_ok(k as int);
            assert(page == heap_page(k as int));
        }
        let frame = match allocator.allocate_frame() {
            Some(f) => f,
            None => {
                proof {
                    assert(frames.len() <= allocator.issued_spec() - 1);
                    assert(frames.len() < 4 * (k as int + 1));
                    assert forall|j: int| 0 <= j < k implies translate(
                        mapper.mem(),
                        l4,
                        heap_page(j),
                    ).is_some() by {
                        assert(translate(mapper.mem(), l4, heap_page(j)) == Some(
                            frames[idxs[j]],
                        ));
                    }
                    assert(stopped_at(
                        mem_orig,
                        mapper.mem(),
                        l4,
                        frames,
                        MapError::FrameAllocationFailed,
                        k as int,
                    ));
                }
                return Err(MapError::FrameAllocationFailed);
            },
        };
        let ghost n = allocator.issued_spec() - 1;
        proof {
            lemma_allocated_frame_usable(allocator.map_spec(), n as int);
            assert(frame == frames[n as int]);
        }
        let fl = match mapper.map_to(page, frame, true, &mut allocator) {
            Ok(fl) => fl,
            Err(e) => {
                proof {
                    assert forall|j: int| 0 <= j < k implies translate(
                        mapper.mem(),
                        l4,
                        heap_page(j),
                    ).is_some() by {
                        lemma_heap_page_ok(j);
                        assert(translate(mapper.mem(), l4, heap_page(j)) == Some(
                            frames[idxs[j]],
                        ));
                    }
                    if e == MapError::AlreadyMapped {
                        assert(translate(mem_orig, l4, heap_page(k as int)).is_some());
                    }
                    assert(stopped_at(mem_orig, mapper.mem(), l4, frames, e, k as int));
                }
                return Err(e);
            },
        };
        fl.flush();
        proof {
            idxs = idxs.push(n as int);
            assert forall|j: int| 0 <= j < k + 1 implies translate(mapper.mem(), l4, heap_page(j))
                == Some(frames[#[trigger] idxs[j]]) by {
                lemma_heap_page_ok(j);
                if j < k {
                    assert(heap_page(j) != heap_page(k as int));
                }
            }
            assert forall|j: int| k + 1 <= j < HEAP_PAGE_COUNT implies translate(
                mapper.mem(),
                l4,
                heap_page(j),
            ) == translate(mem_orig, l4, heap_page(j)) by {
                lemma_heap_page_ok(j);
                assert(heap_page(j) != heap_page(k as int));
            }
            assert forall|q: u64| page_ok(q) && !in_heap_window(q) implies translate(
                mapper.mem(),
                l4,
                q,
            ) == translate(mem_orig, l4, q) by {
                lemma_heap_page_ok(k as int);
                assert(q != heap_page(k as int));
            }
        }
        k = k + 1;
    }
    proof {
        assert(allocator.map_spec().usable_ascending());
        assert forall|kk: int| 0 <= kk < HEAP_PAGE_COUNT implies translate(
            mapper.mem(),
            l4,
            heap_page(kk),
        ).is_some() && frame_in_usable_region(
            boot.memory_map.regions@,
            translate(mapper.mem(), l4, heap_page(kk)).unwrap(),
        ) by {
            assert(translate(mapper.mem(), l4, heap_page(kk)) == Some(frames[idxs[kk]]));
            lemma_allocated_frame_usable(allocator.map_spec(), idxs[kk]);
        }
        assert forall|k1: int, k2: int| 0 <= k1 < k2 < HEAP_PAGE_COUNT implies translate(
            mapper.mem(),
            l4,
            heap_page(k1),
        ) != translate(mapper.mem(), l4, heap_page(k2)) by {
            lemma_allocated_frames_ascending(allocator.map_spec(), idxs[k1], idxs[k2]);
        }
    }
    arena.init(HEAP_START, HEAP_SIZE);
    Ok(())
}

} // verus!
