//! Typed values through the arena: widths, byte images and round
//! trips for every storable type.

use valloc::allocator::Valloc;
use valloc::errors::VallocError;
use valloc::pointer::Pointer;
use valloc::value::ArenaValue;

#[test]
fn widths_are_fixed() {
    assert_eq!(<u8 as ArenaValue>::width(), 1);
    assert_eq!(<u16 as ArenaValue>::width(), 2);
    assert_eq!(<u32 as ArenaValue>::width(), 4);
    assert_eq!(<u64 as ArenaValue>::width(), 8);
    assert_eq!(<i32 as ArenaValue>::width(), 4);
    assert_eq!(<char as ArenaValue>::width(), 4);
}

#[test]
fn u16_round_trip() {
    let mut allocator = Valloc::new(16);
    let ptr = allocator.alloc_bytes::<u16>(2).unwrap();
    allocator.write(&ptr, 0xBEEFu16).unwrap();
    assert_eq!(allocator.read(&ptr).unwrap(), 0xBEEF);
    // little-endian byte image, observed through aliasing byte reads
    let bytes = Pointer::<u8>::new(ptr.address().unwrap(), 0);
    assert_eq!(allocator.read(&bytes).unwrap(), 0xEF);
    assert_eq!(allocator.read(&bytes.add(1)).unwrap(), 0xBE);
}

#[test]
fn u32_round_trip() {
    let mut allocator = Valloc::new(16);
    let ptr = allocator.alloc_bytes::<u32>(4).unwrap();
    allocator.write(&ptr, 0x0102_0304u32).unwrap();
    assert_eq!(allocator.read(&ptr).unwrap(), 0x0102_0304);
    let bytes = Pointer::<u8>::new(ptr.address().unwrap(), 0);
    assert_eq!(allocator.read(&bytes).unwrap(), 4);
    assert_eq!(allocator.read(&bytes.add(1)).unwrap(), 3);
    assert_eq!(allocator.read(&bytes.add(2)).unwrap(), 2);
    assert_eq!(allocator.read(&bytes.add(3)).unwrap(), 1);
}

#[test]
fn u64_round_trip() {
    let mut allocator = Valloc::new(16);
    let ptr = allocator.alloc_bytes::<u64>(8).unwrap();
    allocator.write(&ptr, u64::MAX - 7).unwrap();
    assert_eq!(allocator.read(&ptr).unwrap(), u64::MAX - 7);
}

#[test]
fn i32_round_trip_negative() {
    let mut allocator = Valloc::new(16);
    let ptr = allocator.alloc_bytes::<i32>(4).unwrap();
    allocator.write(&ptr, -5i32).unwrap();
    assert_eq!(allocator.read(&ptr).unwrap(), -5);

    // two's complement image: -1 is all ones
    allocator.write(&ptr, -1i32).unwrap();
    let bytes = Pointer::<u8>::new(ptr.address().unwrap(), 0);
    for i in 0..4 {
        assert_eq!(allocator.read(&bytes.add(i)).unwrap(), 0xFF);
    }
}

#[test]
fn char_round_trip() {
    let mut allocator = Valloc::new(16);
    let ptr = allocator.alloc_bytes::<char>(4).unwrap();
    for c in ['A', 'é', '中', '🦀'] {
        allocator.write(&ptr, c).unwrap();
        assert_eq!(allocator.read(&ptr).unwrap(), c);
    }
}

#[test]
fn alloc_zero_bytes_is_refused() {
    let mut allocator = Valloc::new(16);
    assert_eq!(
        allocator.alloc_bytes::<u8>(0),
        Err(VallocError::ZeroSizeRequest)
    );
    assert_eq!(
        allocator.alloc_array::<u32>(0),
        Err(VallocError::ZeroSizeRequest)
    );
}

#[test]
fn alloc_beyond_capacity_is_out_of_memory() {
    let mut allocator = Valloc::new(16);
    assert_eq!(
        allocator.alloc_bytes::<u8>(17),
        Err(VallocError::OutOfMemory)
    );
}

#[test]
fn fragmentation_blocks_large_fit() {
    // the available total is advisory: 8 bytes are free, but split
    // into two chunks of 4 around a live one
    let mut allocator = Valloc::new(12);
    let mut a = allocator.alloc_bytes::<u8>(4).unwrap();
    let _b = allocator.alloc_bytes::<u8>(4).unwrap();
    let mut c = allocator.alloc_bytes::<u8>(4).unwrap();
    allocator.free(&mut a).unwrap();
    assert_eq!(allocator.available(), 4);
    allocator.free(&mut c).unwrap();
    assert_eq!(allocator.available(), 8);
    assert_eq!(
        allocator.alloc_bytes::<u8>(8),
        Err(VallocError::OutOfMemory)
    );
}

#[test]
fn free_foreign_pointer_is_invalid() {
    let mut allocator = Valloc::new(16);
    let ptr = allocator.alloc_bytes::<u8>(4).unwrap();
    // an interior address is not a chunk base
    let mut interior = ptr.add(1);
    assert_eq!(allocator.free(&mut interior), Err(VallocError::InvalidPointer));
}

#[test]
fn null_handles_are_refused() {
    let mut allocator = Valloc::new(16);
    let null: Pointer<u8> = Pointer::NULL;
    assert_eq!(
        allocator.read(&null),
        Err(VallocError::NullPointerDereference)
    );
    assert_eq!(
        allocator.write(&null, 1u8),
        Err(VallocError::NullPointerDereference)
    );
    let mut null_mut: Pointer<u8> = Pointer::NULL;
    assert_eq!(
        allocator.free(&mut null_mut),
        Err(VallocError::NullPointerDereference)
    );
    assert_eq!(
        allocator.realloc(null, 4),
        Err(VallocError::NullPointerDereference)
    );
}

#[test]
fn access_after_free_is_invalid() {
    let mut allocator = Valloc::new(16);
    let ptr = allocator.alloc_bytes::<u8>(4).unwrap();
    allocator.write(&ptr, 42u8).unwrap();
    let mut handle = ptr;
    allocator.free(&mut handle).unwrap();
    assert_eq!(allocator.read(&ptr), Err(VallocError::InvalidAddress));
    assert_eq!(allocator.write(&ptr, 1u8), Err(VallocError::InvalidAddress));
}

#[test]
fn out_of_range_access_is_invalid() {
    let mut allocator = Valloc::new(16);
    let ptr = allocator.alloc_bytes::<u8>(4).unwrap();
    assert_eq!(
        allocator.read(&ptr.add(4)),
        Err(VallocError::InvalidAddress)
    );
    let beyond: Pointer<u8> = Pointer::new(100, 0);
    assert_eq!(allocator.read(&beyond), Err(VallocError::InvalidAddress));
}

#[test]
fn buffer_stops_at_first_error() {
    let mut allocator = Valloc::new(16);
    let ptr = allocator.alloc_bytes::<u8>(4).unwrap();
    let values = vec![1u8, 2, 3, 4, 5, 6];
    // six bytes do not fit the four-byte chunk
    assert_eq!(
        allocator.write_buffer(&ptr, &values),
        Err(VallocError::InvalidAddress)
    );
    // the elements before the failure stay written
    assert_eq!(allocator.read_buffer(&ptr, 4).unwrap(), vec![1, 2, 3, 4]);
    assert_eq!(
        allocator.read_buffer(&ptr, 5),
        Err(VallocError::InvalidAddress)
    );
}
