use bootmem::arena::{AllocError, HeapArena};

#[test]
fn zero_size_allocation_succeeds() {
    let mut a = HeapArena::empty();
    a.init(0x1000, 0x1000);
    let p = a.allocate(0, 1).expect("zero-size allocation must not fail");
    assert!(0x1000 <= p && p <= 0x2000);
    // A zero-size block overlaps nothing; a real allocation right after
    // still gets the full window.
    let q = a.allocate(0x1000, 1).expect("full window still available");
    assert_eq!(q, 0x1000);
}

#[test]
fn exceeding_capacity_reports_out_of_memory() {
    let mut a = HeapArena::empty();
    a.init(0, 100);
    let first = a.allocate(60, 1).expect("first block fits");
    assert!(first + 60 <= 100);
    // The two blocks together exceed the capacity.
    assert_eq!(a.allocate(60, 1), Err(AllocError::OutOfMemory));
    // A smaller request still fits in the remainder.
    assert_eq!(a.allocate(40, 1), Ok(60));
}

#[test]
fn allocation_before_init_is_out_of_memory() {
    let mut a = HeapArena::empty();
    assert_eq!(a.allocate(1, 1), Err(AllocError::OutOfMemory));
    assert_eq!(a.allocate(0, 1), Err(AllocError::OutOfMemory));
}

#[test]
fn blocks_do_not_overlap() {
    let mut a = HeapArena::empty();
    a.init(0x4000, 0x1000);
    let p1 = a.allocate(0x10, 1).unwrap();
    let p2 = a.allocate(0x10, 1).unwrap();
    let p3 = a.allocate(0x10, 1).unwrap();
    assert!(p1 + 0x10 <= p2);
    assert!(p2 + 0x10 <= p3);
    assert!(p3 + 0x10 <= 0x5000);
}

#[test]
fn alignment_is_respected() {
    let mut a = HeapArena::empty();
    a.init(0x1000, 0x1000);
    let p = a.allocate(10, 8).unwrap();
    assert_eq!(p % 8, 0);
    let q = a.allocate(1, 1).unwrap();
    assert_eq!(q, p + 10);
    let r = a.allocate(4, 16).unwrap();
    assert_eq!(r % 16, 0);
    assert!(r > q);
}

#[test]
fn deallocate_retires_a_block() {
    let mut a = HeapArena::empty();
    a.init(0x1000, 0x100);
    let p = a.allocate(0x40, 1).unwrap();
    a.deallocate(p, 0x40);
    // The bytes are retired, not recycled: the next block is fresh.
    let q = a.allocate(0x40, 1).unwrap();
    assert!(p + 0x40 <= q);
}
