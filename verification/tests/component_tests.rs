//! The individual components: arena storage, chunk windows, handles,
//! the chunk ledger and the one-time allocator container.

use valloc::allocator::ChunkList;
use valloc::allocator::ChunkNode;
use valloc::allocator::GlobalValloc;
use valloc::allocator::Valloc;
use valloc::errors::VallocError;
use valloc::pointer::CPointer;
use valloc::pointer::Pointer;
use valloc::vmem::VirtMemory;
use valloc::vmem::VirtMemoryChunk;

#[test]
fn virt_memory_starts_zeroed() {
    let mem = VirtMemory::new(8);
    assert_eq!(mem.len(), 8);
    for i in 0..8 {
        assert_eq!(mem.read_byte(i), 0);
    }
}

#[test]
fn virt_memory_adopts_buffer() {
    let mem = VirtMemory::from_mem(vec![5, 6, 7]);
    assert_eq!(mem.len(), 3);
    assert_eq!(mem.get_data(), &vec![5, 6, 7]);
}

#[test]
fn virt_memory_write_byte() {
    let mut mem = VirtMemory::new(4);
    mem.write_byte(2, 9);
    assert_eq!(mem.read_byte(2), 9);
    assert_eq!(mem.read_byte(1), 0);
}

#[test]
fn chunk_window_bounds() {
    let chunk = VirtMemoryChunk::new(2, 5);
    assert_eq!(chunk.lower_bound(), 2);
    assert_eq!(chunk.upper_bound(), 5);
    assert_eq!(chunk.data(), 0);
    let shifted = VirtMemoryChunk::from_data(1, 2, 5);
    assert_eq!(shifted.data(), 1);
}

#[test]
fn chunk_window_checked_access() {
    let mut mem = VirtMemory::new(8);
    let chunk = VirtMemoryChunk::new(2, 5);

    chunk.write(&mut mem, 3, 42).unwrap();
    assert_eq!(chunk.read(&mem, 3).unwrap(), 42);
    // inside the arena but outside the window
    assert_eq!(chunk.read(&mem, 6), Err(VallocError::InvalidAddress));
    assert_eq!(chunk.write(&mut mem, 1, 9), Err(VallocError::InvalidAddress));
    // inside the window bounds but outside the arena
    let wide = VirtMemoryChunk::new(0, 100);
    assert_eq!(wide.read(&mem, 50), Err(VallocError::InvalidAddress));
}

#[test]
fn pointer_arithmetic_scales_by_width() {
    let p: Pointer<u32> = Pointer::new(8, 2);
    let q = p.add(3);
    assert_eq!(q.address().unwrap(), 8 + 3 * 4);
    assert_eq!(q.get_index().unwrap(), 5);
    let back = q.sub(3);
    assert_eq!(back.address().unwrap(), 8);
    assert_eq!(back.get_index().unwrap(), 2);
}

#[test]
fn pointer_cast_keeps_location() {
    let p: Pointer<u32> = Pointer::new(12, 3);
    let q: Pointer<u8> = p.cast().unwrap();
    assert_eq!(q.address().unwrap(), 12);
    assert_eq!(q.get_index().unwrap(), 3);
    assert!(!q.is_null());

    let null: Pointer<u32> = Pointer::NULL;
    assert!(null.is_null());
    assert_eq!(null.get_index(), Err(VallocError::NullPointerDereference));
    assert_eq!(null.address(), Err(VallocError::NullPointerDereference));
    assert_eq!(
        null.cast::<u8>().unwrap_err(),
        VallocError::NullPointerDereference
    );
}

#[test]
fn cpointer_round_trip() {
    let c = CPointer::new(16, 4, 1);
    let p = c.to_pointer();
    assert_eq!(p.address().unwrap(), 16);
    assert_eq!(p.get_index().unwrap(), 1);
    let c2 = CPointer::from_pointer(&p, 4).unwrap();
    assert_eq!(c2, c);
    assert_eq!(
        CPointer::from_pointer(&Pointer::NULL, 4),
        Err(VallocError::NullPointerDereference)
    );
}

#[test]
fn chunk_list_push_pop() {
    let first = ChunkNode::new(0, 8, false);
    let mut list = ChunkList::new(Some(first), 8);
    assert_eq!(list.len(), 1);
    assert_eq!(list.get_available(), 8);

    list.push_back(ChunkNode::new(8, 4, true));
    list.push_front(ChunkNode::new(100, 1, true));
    assert_eq!(list.len(), 3);
    assert_eq!(list.get(0).get_ptr(), 100);
    assert_eq!(list.get(2).get_size(), 4);

    let back = list.pop_back().unwrap();
    assert!(back.is_in_use());
    let front = list.pop_front().unwrap();
    assert_eq!(front.get_ptr(), 100);
    assert_eq!(list.len(), 1);
    assert_eq!(list.pop_back().map(|c| c.get_ptr()), Some(0));
    assert_eq!(list.pop_back(), None);
    assert_eq!(list.pop_front(), None);

    list.set_available(3);
    assert_eq!(list.get_available(), 3);
}

#[test]
fn global_container_initialises_once() {
    let mut global = GlobalValloc::uninitialized();
    assert!(!global.is_initialized());

    assert!(global.init(Valloc::new(8)));
    assert!(global.is_initialized());
    // a second initialisation is refused
    assert!(!global.init(Valloc::new(16)));

    let mut taken = global.take().unwrap();
    assert!(!global.is_initialized());
    assert_eq!(taken.available(), 8);
    let _ptr = taken.alloc_bytes::<u8>(4).unwrap();
    assert_eq!(taken.available(), 4);

    let preloaded = GlobalValloc::new(Valloc::new(4));
    assert!(preloaded.is_initialized());
}

#[test]
fn from_mem_adopts_without_zeroing() {
    let mut allocator = Valloc::from_mem(vec![9, 8, 7, 6]);
    assert_eq!(allocator.available(), 4);
    let ptr = allocator.alloc_bytes::<u8>(4).unwrap();
    // adopted bytes are kept, not zeroed
    assert_eq!(allocator.read(&ptr).unwrap(), 9);
    assert_eq!(allocator.read(&ptr.add(3)).unwrap(), 6);
}

#[test]
fn freed_bytes_are_not_zeroed() {
    let mut allocator = Valloc::new(8);
    let ptr = allocator.alloc_bytes::<u8>(2).unwrap();
    allocator.write(&ptr, 77u8).unwrap();
    let mut handle = ptr;
    allocator.free(&mut handle).unwrap();
    // the data is still there for the next owner of the range
    let again = allocator.alloc_bytes::<u8>(2).unwrap();
    assert_eq!(allocator.read(&again).unwrap(), 77);
}
