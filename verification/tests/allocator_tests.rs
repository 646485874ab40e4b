//! The allocator exercised end to end: allocation, typed access,
//! casting, reallocation and freeing.

use valloc::allocator::Valloc;
use valloc::errors::VallocError;
use valloc::pointer::Pointer;

#[test]
fn alloc_clousre() {
    let mut allocator = Valloc::new(1024);

    // the arena stores plain data, never code: the closure stays
    // outside, its operands live in the arena
    let add = |a: i8, b: i8| (a + b) as u8;
    let mut ptr = allocator.alloc_bytes::<u8>(2).unwrap();
    allocator.write(&ptr, 1u8).unwrap();
    allocator.write(&ptr.add(1), 2u8).unwrap();
    let a = allocator.read(&ptr).unwrap() as i8;
    let b = allocator.read(&ptr.add(1)).unwrap() as i8;

    assert_eq!(add(a, b), 3);

    allocator.free(&mut ptr).unwrap();
}

#[test]
fn alloc_string() {
    let mut allocator = Valloc::new(1024);

    // Allocate room for the string's bytes
    let mut ptr = allocator.alloc_bytes::<u8>(13).unwrap();

    let bytes: Vec<u8> = "Hello, World!".bytes().collect();
    allocator.write_buffer(&ptr, &bytes).unwrap();

    let read = allocator.read_buffer(&ptr, 13).unwrap();
    assert_eq!(String::from_utf8(read).unwrap(), "Hello, World!");

    allocator.free(&mut ptr).unwrap();
}

#[test]
fn alloc_struct() {
    let mut allocator = Valloc::new(1024);
    // a record { a: u8, b: u16, c: u32 } laid out at offsets 0, 2, 4
    let mut ptr = allocator.alloc_bytes::<u8>(8).unwrap();
    let base = ptr.address().unwrap();

    let pa: Pointer<u8> = Pointer::new(base, 0);
    let pb: Pointer<u16> = Pointer::new(base + 2, 0);
    let pc: Pointer<u32> = Pointer::new(base + 4, 0);

    allocator.write(&pa, 1u8).unwrap();
    allocator.write(&pb, 2u16).unwrap();
    allocator.write(&pc, 3u32).unwrap();

    assert_eq!(allocator.read(&pa).unwrap(), 1);
    assert_eq!(allocator.read(&pb).unwrap(), 2);
    assert_eq!(allocator.read(&pc).unwrap(), 3);

    allocator.free(&mut ptr).unwrap();
}

#[test]
fn ptr_free() {
    let mut allocator = Valloc::new(1024);

    let mut ptr = allocator.alloc_bytes::<u8>(13).unwrap();

    // Free the pointer
    allocator.free(&mut ptr).unwrap();
}

#[test]
fn ptr_cast() {
    let mut allocator = Valloc::new(1024);

    let ptr = allocator.alloc_bytes::<u16>(2).unwrap();

    let mut ptr = ptr.cast::<u8>().unwrap();
    allocator.write(&ptr, 1u8).unwrap();
    assert_eq!(allocator.read(&ptr).unwrap(), 1);

    allocator.free(&mut ptr).unwrap();
}

#[test]
fn ptr_cast_small_to_large() {
    let mut allocator = Valloc::new(1024);

    let mut ptr = allocator.alloc_bytes::<u8>(1).unwrap();

    // A two-byte access through a one-byte chunk is out of range: the
    // write is re-validated against the owning chunk and refused.
    let wide = ptr.cast::<u16>().unwrap();
    assert_eq!(allocator.write(&wide, 1u16), Err(VallocError::InvalidAddress));

    allocator.free(&mut ptr).unwrap();
}

#[test]
fn realloc_test() {
    let mut allocator = Valloc::new(1024);

    let ptr = allocator.alloc_bytes::<u8>(1).unwrap();
    allocator.write(&ptr, 1u8).unwrap();
    assert_eq!(allocator.read(&ptr).unwrap(), 1);

    let mut ptr = allocator.realloc(ptr, 2).unwrap();

    allocator.write(&ptr.add(1), 2u8).unwrap();
    assert_eq!(allocator.read(&ptr).unwrap(), 1);
    assert_eq!(allocator.read(&ptr.add(1)).unwrap(), 2);

    allocator.free(&mut ptr).unwrap();
}

#[test]
fn realloc_fail() {
    let mut allocator = Valloc::new(1024);

    let ptr = allocator.alloc_bytes::<u8>(1).unwrap();
    allocator.write(&ptr, 1u8).unwrap();
    assert_eq!(allocator.read(&ptr).unwrap(), 1);

    // there will be an error here so we never allocate the new memory
    let ptr = allocator.realloc(ptr, 0);
    assert!(ptr.is_err());
}

#[test]
fn realloc_struct() {
    let mut allocator = Valloc::new(1024);
    // a record { a: u8, b: u16, c: u32 } laid out at offsets 0, 2, 4
    let ptr = allocator.alloc_bytes::<u8>(8).unwrap();
    let base = ptr.address().unwrap();

    allocator.write(&Pointer::<u8>::new(base, 0), 1u8).unwrap();
    allocator.write(&Pointer::<u16>::new(base + 2, 0), 2u16).unwrap();
    allocator.write(&Pointer::<u32>::new(base + 4, 0), 3u32).unwrap();

    assert_eq!(allocator.read(&Pointer::<u8>::new(base, 0)).unwrap(), 1);
    assert_eq!(allocator.read(&Pointer::<u16>::new(base + 2, 0)).unwrap(), 2);
    assert_eq!(allocator.read(&Pointer::<u32>::new(base + 4, 0)).unwrap(), 3);

    // double the size: now there is room for a second record
    let mut ptr = allocator.realloc(ptr, 16).unwrap();
    let base = ptr.address().unwrap();

    allocator.write(&Pointer::<u8>::new(base + 8, 0), 4u8).unwrap();
    allocator.write(&Pointer::<u16>::new(base + 10, 0), 5u16).unwrap();
    allocator.write(&Pointer::<u32>::new(base + 12, 0), 6u32).unwrap();

    // assert that the old values are still there
    assert_eq!(allocator.read(&Pointer::<u8>::new(base, 0)).unwrap(), 1);
    assert_eq!(allocator.read(&Pointer::<u16>::new(base + 2, 0)).unwrap(), 2);
    assert_eq!(allocator.read(&Pointer::<u32>::new(base + 4, 0)).unwrap(), 3);
    // assert the new record has the correct values
    assert_eq!(allocator.read(&Pointer::<u8>::new(base + 8, 0)).unwrap(), 4);
    assert_eq!(allocator.read(&Pointer::<u16>::new(base + 10, 0)).unwrap(), 5);
    assert_eq!(allocator.read(&Pointer::<u32>::new(base + 12, 0)).unwrap(), 6);

    allocator.free(&mut ptr).unwrap();
}

#[test]
fn alloc_array_chars() {
    let mut allocator = Valloc::new(1024);

    // Allocate a char array
    let mut ptr = allocator.alloc_array::<char>(13).unwrap();

    let chars: Vec<char> = "Hello, World!".chars().collect();
    allocator.write_buffer(&ptr, &chars).unwrap();

    // compare each character to the string
    for (i, c) in "Hello, World!".chars().enumerate() {
        assert_eq!(allocator.read(&ptr.add(i)).unwrap(), c);
    }

    allocator.free(&mut ptr).unwrap();
}

#[test]
fn realloc_string() {
    let mut allocator = Valloc::new(1024);

    let ptr = allocator.alloc_bytes::<u8>(13).unwrap();
    let first: Vec<u8> = "Hello, World!".bytes().collect();
    allocator.write_buffer(&ptr, &first).unwrap();
    assert_eq!(
        String::from_utf8(allocator.read_buffer(&ptr, 13).unwrap()).unwrap(),
        "Hello, World!"
    );

    // room for the second string right after the first
    let ptr = allocator.realloc(ptr, 37).unwrap();
    let second: Vec<u8> = "Hello, World! times 2 :)".bytes().collect();
    allocator.write_buffer(&ptr.add(13), &second).unwrap();

    assert_eq!(
        String::from_utf8(allocator.read_buffer(&ptr, 13).unwrap()).unwrap(),
        "Hello, World!"
    );
    assert_eq!(
        String::from_utf8(allocator.read_buffer(&ptr.add(13), 24).unwrap()).unwrap(),
        "Hello, World! times 2 :)"
    );
}

#[test]
fn single_ptr_stress_test() {
    let mut allocator = Valloc::new(1024);

    let mut ptr = allocator.alloc_bytes::<u8>(1024).unwrap();
    for i in 0..1024 {
        allocator.write(&ptr.add(i), i as u8).unwrap();
    }

    for i in 0..1024 {
        assert_eq!(allocator.read(&ptr.add(i)).unwrap(), i as u8);
    }

    allocator.free(&mut ptr).unwrap();
}

#[test]
fn many_ptr_stress_test() {
    let mut allocator = Valloc::new(1024);

    let mut ptrs = Vec::new();
    for _ in 0..100 {
        let ptr = allocator.alloc_bytes::<u8>(1).unwrap();
        allocator.write(&ptr, 1u8).unwrap();
        ptrs.push(ptr);
    }

    for ptr in ptrs.iter_mut() {
        allocator.free(ptr).unwrap();
    }
}
