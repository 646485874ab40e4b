//! Concrete end-to-end scenarios: round trips, double frees, failed
//! growth, coalescing and in-place reallocation.

use valloc::allocator::Valloc;
use valloc::errors::VallocError;

#[test]
fn hello_round_trip_returns_bytes_to_available() {
    let mut allocator = Valloc::new(1024);
    let before = allocator.available();

    let mut ptr = allocator.alloc_bytes::<u8>(6).unwrap();
    for (i, b) in [b'H', b'e', b'l', b'l', b'o'].into_iter().enumerate() {
        allocator.write(&ptr.add(i), b).unwrap();
    }
    let mut read = Vec::new();
    for i in 0..5 {
        read.push(allocator.read(&ptr.add(i)).unwrap());
    }
    assert_eq!(String::from_utf8(read).unwrap(), "Hello");

    assert_eq!(allocator.available(), before - 6);
    allocator.free(&mut ptr).unwrap();
    assert_eq!(allocator.available(), before);
}

#[test]
fn double_free_is_reported() {
    let mut allocator = Valloc::new(1024);
    let ptr = allocator.alloc_bytes::<u8>(1).unwrap();

    // handles are plain values; keep a copy of the same handle
    let mut first = ptr;
    let mut second = ptr;

    assert_eq!(allocator.free(&mut first), Ok(()));
    // the freed handle itself is nulled, the copy still names the base
    assert!(first.is_null());
    assert_eq!(allocator.free(&mut second), Err(VallocError::DoubleFree));
}

#[test]
fn failed_grow_leaves_allocation_intact() {
    let mut allocator = Valloc::new(10);
    let ptr = allocator.alloc_bytes::<u8>(1).unwrap();
    allocator.write(&ptr, 7u8).unwrap();

    let r = allocator.realloc(ptr, 1_000_000);
    assert!(matches!(r, Err(VallocError::CapacityExceeded)));

    // the original pointer is still readable afterwards
    assert_eq!(allocator.read(&ptr).unwrap(), 7);
}

#[test]
fn freeing_adjacent_chunks_coalesces() {
    let mut allocator = Valloc::new(16);
    let mut a = allocator.alloc_bytes::<u8>(4).unwrap();
    let mut b = allocator.alloc_bytes::<u8>(4).unwrap();

    allocator.free(&mut a).unwrap();
    allocator.free(&mut b).unwrap();

    assert_eq!(allocator.available(), 16);
    // the ledger holds exactly one free chunk spanning the arena
    assert_eq!(allocator.chunks.list.len(), 1);
    assert_eq!(allocator.chunks.list[0].size, 16);
    assert!(!allocator.chunks.list[0].in_use);
}

#[test]
fn freeing_adjacent_chunks_coalesces_in_reverse_order() {
    let mut allocator = Valloc::new(16);
    let mut a = allocator.alloc_bytes::<u8>(4).unwrap();
    let mut b = allocator.alloc_bytes::<u8>(4).unwrap();

    allocator.free(&mut b).unwrap();
    allocator.free(&mut a).unwrap();

    assert_eq!(allocator.available(), 16);
    assert_eq!(allocator.chunks.list.len(), 1);
    assert_eq!(allocator.chunks.list[0].size, 16);
    assert!(!allocator.chunks.list[0].in_use);
}

#[test]
fn realloc_preserves_written_prefix() {
    let mut allocator = Valloc::new(1024);
    let ptr = allocator.alloc_bytes::<u8>(1).unwrap();
    allocator.write(&ptr, 1u8).unwrap();

    let mut ptr = allocator.realloc(ptr, 2).unwrap();
    assert_eq!(allocator.read(&ptr).unwrap(), 1);
    allocator.write(&ptr.add(1), 2u8).unwrap();
    assert_eq!(allocator.read(&ptr).unwrap(), 1);
    assert_eq!(allocator.read(&ptr.add(1)).unwrap(), 2);

    allocator.free(&mut ptr).unwrap();
}

#[test]
fn first_fit_reuses_freed_base() {
    let mut allocator = Valloc::new(64);
    let mut a = allocator.alloc_bytes::<u8>(8).unwrap();
    let b = allocator.alloc_bytes::<u8>(8).unwrap();
    let base_a = a.address().unwrap();
    assert_eq!(base_a, 0);
    assert_eq!(b.address().unwrap(), 8);

    allocator.free(&mut a).unwrap();

    // first fit: the freed leading chunk is chosen again
    let c = allocator.alloc_bytes::<u8>(8).unwrap();
    assert_eq!(c.address().unwrap(), base_a);
}

#[test]
fn live_allocations_never_overlap() {
    let mut allocator = Valloc::new(64);
    let a = allocator.alloc_bytes::<u8>(10).unwrap();
    let b = allocator.alloc_bytes::<u8>(10).unwrap();
    let (start_a, start_b) = (a.address().unwrap(), b.address().unwrap());
    assert!(start_a + 10 <= start_b || start_b + 10 <= start_a);
}

#[test]
fn shrink_in_place_keeps_base_and_frees_tail() {
    let mut allocator = Valloc::new(32);
    let ptr = allocator.alloc_bytes::<u8>(16).unwrap();
    allocator.write(&ptr, 9u8).unwrap();
    let before = allocator.available();

    let ptr = allocator.realloc(ptr, 4).unwrap();
    assert_eq!(ptr.address().unwrap(), 0);
    assert_eq!(allocator.read(&ptr).unwrap(), 9);
    assert_eq!(allocator.available(), before + 12);
    // the freed tail merged with the trailing free chunk
    assert_eq!(allocator.chunks.list.len(), 2);
}

#[test]
fn grow_in_place_consumes_free_neighbour() {
    let mut allocator = Valloc::new(32);
    let ptr = allocator.alloc_bytes::<u8>(8).unwrap();
    allocator.write(&ptr, 3u8).unwrap();

    let ptr = allocator.realloc(ptr, 20).unwrap();
    // grown in place: same base, value kept
    assert_eq!(ptr.address().unwrap(), 0);
    assert_eq!(allocator.read(&ptr).unwrap(), 3);
    assert_eq!(allocator.available(), 12);
}

#[test]
fn realloc_moves_when_neighbour_is_used() {
    let mut allocator = Valloc::new(64);
    let a = allocator.alloc_bytes::<u8>(8).unwrap();
    let b = allocator.alloc_bytes::<u8>(8).unwrap();
    allocator.write(&a, 11u8).unwrap();
    allocator.write(&a.add(7), 12u8).unwrap();

    // the chunk after `a` is in use, so growing must move the data
    let a2 = allocator.realloc(a, 16).unwrap();
    assert_ne!(a2.address().unwrap(), 0);
    assert_eq!(allocator.read(&a2).unwrap(), 11);
    assert_eq!(allocator.read(&a2.add(7)).unwrap(), 12);
    // the old base is free again and `b` is untouched
    assert_eq!(allocator.read(&b).unwrap(), 0);
    assert!(!allocator.chunks.list[0].in_use);
}
