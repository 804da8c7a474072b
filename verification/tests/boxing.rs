use smalloc::{free, malloc, AllocError, SmallocAllocator};

fn put(heap: &mut SmallocAllocator, value: i32) -> usize {
    let ptr = malloc(heap, 4).unwrap();
    let bytes = value.to_le_bytes();
    for (offset, byte) in bytes.iter().enumerate() {
        heap.store(ptr, offset, *byte).unwrap();
    }
    ptr
}

fn get(heap: &SmallocAllocator, ptr: usize) -> i32 {
    let mut bytes = [0u8; 4];
    for (offset, byte) in bytes.iter_mut().enumerate() {
        *byte = heap.load(ptr, offset).unwrap();
    }
    i32::from_le_bytes(bytes)
}

#[test]
fn test_boxing() {
    let mut heap = SmallocAllocator::new(1 << 20);
    let a = put(&mut heap, 1);
    let b = put(&mut heap, 2);
    let c = put(&mut heap, 3);

    assert_eq!(get(&heap, a), 1);
    assert_eq!(get(&heap, b), 2);
    assert_eq!(get(&heap, c), 3);
}

#[test]
fn boxes_are_dropped_and_reused() {
    let mut heap = SmallocAllocator::new(1 << 20);
    let a = put(&mut heap, 7);
    let b = put(&mut heap, 8);
    assert_eq!(free(&mut heap, a), Ok(()));
    assert_eq!(heap.load(a, 0), Err(AllocError::InvalidPointer));
    let c = put(&mut heap, 9);
    assert_eq!(c, a);
    assert_eq!(get(&heap, b), 8);
    assert_eq!(get(&heap, c), 9);
}
