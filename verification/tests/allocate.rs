use smalloc::{
    align_up, calloc, find_free, free, get_metadata_from_alloc_ptr, malloc, realloc,
    request_space, split_block, AllocError, Allocation, FreeResult, SmallocAllocator, MAGIC,
    METADATA_SIZE, NULL,
};

const ROOMY: usize = 1 << 16;

fn fill(heap: &mut SmallocAllocator, ptr: usize, len: usize, first: u8) {
    for offset in 0..len {
        heap.store(ptr, offset, first.wrapping_add(offset as u8)).unwrap();
    }
}

fn header(heap: &SmallocAllocator, ptr: usize) -> Allocation {
    get_metadata_from_alloc_ptr(heap, ptr).unwrap()
}

#[test]
fn rounding_goes_up_to_the_next_multiple_of_eight() {
    assert_eq!(align_up(0), Some(0));
    assert_eq!(align_up(1), Some(8));
    assert_eq!(align_up(8), Some(8));
    assert_eq!(align_up(9), Some(16));
    assert_eq!(align_up(15), Some(16));
    assert_eq!(align_up(100), Some(104));
    assert_eq!(align_up(usize::MAX - 7), Some(usize::MAX - 7));
    assert_eq!(align_up(usize::MAX - 6), None);
    assert_eq!(align_up(usize::MAX), None);
}

#[test]
fn layout_constants() {
    assert_eq!(METADATA_SIZE, 32);
    assert_eq!(MAGIC, 0xdeadbeef);
    assert_eq!(NULL, 0);
}

#[test]
fn new_heap_is_empty() {
    let heap = SmallocAllocator::new(4096);
    assert_eq!(heap.heap_base(), None);
    assert_eq!(heap.region_size(), 0);
    assert_eq!(heap.limit(), 4096);
}

#[test]
fn allocate_zero_returns_null() {
    let mut heap = SmallocAllocator::new(ROOMY);
    assert_eq!(malloc(&mut heap, 0), Ok(NULL));
    assert_eq!(heap.region_size(), 0);
    assert_eq!(heap.heap_base(), None);
    let a = malloc(&mut heap, 24).unwrap();
    assert_eq!(malloc(&mut heap, 0), Ok(NULL));
    assert_eq!(heap.region_size(), 56);
    assert_eq!(header(&heap, a).size, 24);
}

#[test]
fn first_allocation_sets_the_origin() {
    let mut heap = SmallocAllocator::new(ROOMY);
    let a = malloc(&mut heap, 10).unwrap();
    assert_eq!(a, 32);
    assert_eq!(heap.heap_base(), Some(0));
    assert_eq!(heap.region_size(), 48);
    assert_eq!(
        header(&heap, a),
        Allocation { size: 16, is_freed: false, next_block: None, magic: MAGIC }
    );
}

#[test]
fn allocations_are_writable_and_do_not_overlap() {
    let mut heap = SmallocAllocator::new(ROOMY);
    let a = malloc(&mut heap, 13).unwrap();
    let b = malloc(&mut heap, 40).unwrap();
    let c = malloc(&mut heap, 1).unwrap();
    assert_ne!(a, NULL);
    assert_ne!(b, NULL);
    assert_ne!(c, NULL);
    assert_eq!((a, b, c), (32, 80, 152));
    assert!(a + 13 <= b - METADATA_SIZE);
    assert!(b + 40 <= c - METADATA_SIZE);
    fill(&mut heap, a, 13, 1);
    fill(&mut heap, b, 40, 100);
    fill(&mut heap, c, 1, 200);
    for offset in 0..13 {
        assert_eq!(heap.load(a, offset), Ok(1 + offset as u8));
    }
    for offset in 0..40 {
        assert_eq!(heap.load(b, offset), Ok(100 + offset as u8));
    }
    assert_eq!(heap.load(c, 0), Ok(200));
    assert_eq!(header(&heap, a).next_block, Some(b - METADATA_SIZE));
    assert_eq!(header(&heap, b).next_block, Some(c - METADATA_SIZE));
    assert_eq!(header(&heap, c).next_block, None);
}

#[test]
fn released_block_is_reused() {
    let mut heap = SmallocAllocator::new(ROOMY);
    let a = malloc(&mut heap, 48).unwrap();
    let _b = malloc(&mut heap, 16).unwrap();
    let size = heap.region_size();
    assert_eq!(free(&mut heap, a), Ok(()));
    let c = malloc(&mut heap, 41).unwrap();
    assert_eq!(c, a);
    assert_eq!(heap.region_size(), size);
    assert_eq!(header(&heap, c).size, 48);
    assert!(!header(&heap, c).is_freed);
}

#[test]
fn two_released_neighbours_are_merged_by_the_scan() {
    let mut heap = SmallocAllocator::new(ROOMY);
    let a = malloc(&mut heap, 16).unwrap();
    let b = malloc(&mut heap, 16).unwrap();
    let c = malloc(&mut heap, 24).unwrap();
    let d = malloc(&mut heap, 8).unwrap();
    let size = heap.region_size();
    assert_eq!(free(&mut heap, b), Ok(()));
    assert_eq!(free(&mut heap, c), Ok(()));
    assert_eq!(header(&heap, b).size, 16);
    assert_eq!(header(&heap, c).size, 24);
    let e = malloc(&mut heap, 16 + 24 + METADATA_SIZE).unwrap();
    assert_eq!(e, b);
    assert_eq!(heap.region_size(), size);
    assert_eq!(
        header(&heap, e),
        Allocation { size: 72, is_freed: false, next_block: Some(d - METADATA_SIZE), magic: MAGIC }
    );
    assert_eq!(get_metadata_from_alloc_ptr(&heap, c), None);
    assert_eq!(header(&heap, a).next_block, Some(b - METADATA_SIZE));
}

#[test]
fn release_merges_with_a_free_successor() {
    let mut heap = SmallocAllocator::new(ROOMY);
    let a = malloc(&mut heap, 16).unwrap();
    let b = malloc(&mut heap, 16).unwrap();
    let c = malloc(&mut heap, 16).unwrap();
    assert_eq!(free(&mut heap, b), Ok(()));
    assert_eq!(free(&mut heap, a), Ok(()));
    assert_eq!(
        header(&heap, a),
        Allocation { size: 64, is_freed: true, next_block: Some(c - METADATA_SIZE), magic: MAGIC }
    );
    assert_eq!(get_metadata_from_alloc_ptr(&heap, b), None);
    assert_eq!(free(&mut heap, c), Ok(()));
    assert_eq!(header(&heap, c).is_freed, true);
    assert_eq!(header(&heap, a).size, 64);
}

#[test]
fn large_free_block_is_split() {
    let mut heap = SmallocAllocator::new(ROOMY);
    let a = malloc(&mut heap, 128).unwrap();
    let b = malloc(&mut heap, 8).unwrap();
    assert_eq!(free(&mut heap, a), Ok(()));
    let c = malloc(&mut heap, 20).unwrap();
    assert_eq!(c, a);
    let rest = c + 24 + METADATA_SIZE;
    assert_eq!(
        header(&heap, c),
        Allocation {
            size: 24,
            is_freed: false,
            next_block: Some(rest - METADATA_SIZE),
            magic: MAGIC
        }
    );
    assert_eq!(
        header(&heap, rest),
        Allocation {
            size: 128 - 24 - METADATA_SIZE,
            is_freed: true,
            next_block: Some(b - METADATA_SIZE),
            magic: MAGIC
        }
    );
}

#[test]
fn block_without_room_for_a_header_and_a_byte_is_not_split() {
    let mut heap = SmallocAllocator::new(ROOMY);
    let a = malloc(&mut heap, 8 + METADATA_SIZE).unwrap();
    let b = malloc(&mut heap, 8).unwrap();
    assert_eq!(free(&mut heap, a), Ok(()));
    let c = malloc(&mut heap, 8).unwrap();
    assert_eq!(c, a);
    assert_eq!(header(&heap, c).size, 8 + METADATA_SIZE);
    assert_eq!(header(&heap, c).next_block, Some(b - METADATA_SIZE));
    assert_eq!(free(&mut heap, c), Ok(()));
    let d = malloc(&mut heap, 1).unwrap();
    assert_eq!(d, a);
    assert_eq!(header(&heap, d).size, 40);
}

#[test]
fn first_fit_reuse() {
    let mut heap = SmallocAllocator::new(ROOMY);
    let a = malloc(&mut heap, 16).unwrap();
    let b = malloc(&mut heap, 16).unwrap();
    let size = heap.region_size();
    assert_eq!(free(&mut heap, a), Ok(()));
    let c = malloc(&mut heap, 8).unwrap();
    assert_eq!(c, a);
    assert_eq!(heap.region_size(), size);
    assert_eq!(
        header(&heap, c),
        Allocation { size: 16, is_freed: false, next_block: Some(b - METADATA_SIZE), magic: MAGIC }
    );
}

#[test]
fn first_fit_reuse_leaves_a_free_fragment() {
    let mut heap = SmallocAllocator::new(ROOMY);
    let a = malloc(&mut heap, 64).unwrap();
    let b = malloc(&mut heap, 16).unwrap();
    assert_eq!(free(&mut heap, a), Ok(()));
    let c = malloc(&mut heap, 8).unwrap();
    assert_eq!(c, a);
    assert_eq!(header(&heap, c).size, 8);
    let rest = header(&heap, header(&heap, c).next_block.unwrap() + METADATA_SIZE);
    assert_eq!(
        rest,
        Allocation { size: 24, is_freed: true, next_block: Some(b - METADATA_SIZE), magic: MAGIC }
    );
}

#[test]
fn too_small_free_block_is_not_reused() {
    let mut heap = SmallocAllocator::new(ROOMY);
    let a = malloc(&mut heap, 100).unwrap();
    assert_eq!(heap.region_size(), 136);
    assert_eq!(free(&mut heap, a), Ok(()));
    let b = malloc(&mut heap, 200).unwrap();
    assert_ne!(b, a);
    assert_eq!(b, 136 + METADATA_SIZE);
    assert_eq!(heap.region_size(), 136 + 232);
    assert!(header(&heap, a).is_freed);
    assert_eq!(header(&heap, a).next_block, Some(136));
}

#[test]
fn double_release_is_refused_and_harms_nothing() {
    let mut heap = SmallocAllocator::new(ROOMY);
    let a = malloc(&mut heap, 16).unwrap();
    let b = malloc(&mut heap, 16).unwrap();
    let c = malloc(&mut heap, 16).unwrap();
    fill(&mut heap, a, 16, 10);
    fill(&mut heap, c, 16, 50);
    assert_eq!(free(&mut heap, b), Ok(()));
    assert_eq!(free(&mut heap, b), Err(AllocError::InvalidPointer));
    assert_eq!(
        header(&heap, a),
        Allocation { size: 16, is_freed: false, next_block: Some(b - METADATA_SIZE), magic: MAGIC }
    );
    assert_eq!(
        header(&heap, b),
        Allocation { size: 16, is_freed: true, next_block: Some(c - METADATA_SIZE), magic: MAGIC }
    );
    assert_eq!(
        header(&heap, c),
        Allocation { size: 16, is_freed: false, next_block: None, magic: MAGIC }
    );
    for offset in 0..16 {
        assert_eq!(heap.load(a, offset), Ok(10 + offset as u8));
        assert_eq!(heap.load(c, offset), Ok(50 + offset as u8));
    }
    assert_eq!(free(&mut heap, c), Ok(()));
    assert_eq!(free(&mut heap, b), Err(AllocError::InvalidPointer));
    assert_eq!(free(&mut heap, c), Err(AllocError::InvalidPointer));
    assert_eq!(header(&heap, c).size, 16);
    let d = malloc(&mut heap, 64).unwrap();
    assert_eq!(d, b);
    assert_eq!(heap.load(a, 3), Ok(13));
}

#[test]
fn release_of_null_does_nothing() {
    let mut heap = SmallocAllocator::new(ROOMY);
    assert_eq!(free(&mut heap, NULL), Ok(()));
    let a = malloc(&mut heap, 8).unwrap();
    assert_eq!(free(&mut heap, NULL), Ok(()));
    assert!(!header(&heap, a).is_freed);
    assert_eq!(heap.region_size(), 40);
}

#[test]
fn release_of_a_foreign_address_is_refused() {
    let mut heap = SmallocAllocator::new(ROOMY);
    assert_eq!(free(&mut heap, 32), Err(AllocError::InvalidPointer));
    let a = malloc(&mut heap, 64).unwrap();
    fill(&mut heap, a, 64, 0);
    assert_eq!(free(&mut heap, a + 8), Err(AllocError::InvalidPointer));
    assert_eq!(free(&mut heap, a - 1), Err(AllocError::InvalidPointer));
    assert_eq!(free(&mut heap, 5), Err(AllocError::InvalidPointer));
    assert_eq!(free(&mut heap, usize::MAX), Err(AllocError::InvalidPointer));
    assert_eq!(free(&mut heap, a + 64 + METADATA_SIZE), Err(AllocError::InvalidPointer));
    assert!(!header(&heap, a).is_freed);
    assert_eq!(heap.load(a, 63), Ok(63));
}

#[test]
fn out_of_memory_is_reported_and_changes_nothing() {
    let mut heap = SmallocAllocator::new(100);
    let a = malloc(&mut heap, 16).unwrap();
    assert_eq!(heap.region_size(), 48);
    assert_eq!(malloc(&mut heap, 24), Err(AllocError::OutOfMemory));
    assert_eq!(heap.region_size(), 48);
    assert_eq!(header(&heap, a).next_block, None);
    assert_eq!(malloc(&mut heap, 20), Err(AllocError::OutOfMemory));
    let b = malloc(&mut heap, 16).unwrap();
    assert_eq!(b, 80);
    assert_eq!(heap.region_size(), 96);
    assert_eq!(malloc(&mut heap, 1), Err(AllocError::OutOfMemory));
    assert_eq!(header(&heap, b).next_block, None);
    let mut none = SmallocAllocator::new(39);
    assert_eq!(malloc(&mut none, 1), Err(AllocError::OutOfMemory));
    assert_eq!(none.heap_base(), None);
    let mut exact = SmallocAllocator::new(40);
    assert_eq!(malloc(&mut exact, 1), Ok(32));
}

#[test]
fn oversized_requests_are_refused() {
    let mut heap = SmallocAllocator::new(ROOMY);
    assert_eq!(malloc(&mut heap, usize::MAX), Err(AllocError::SizeOverflow));
    assert_eq!(malloc(&mut heap, usize::MAX - 6), Err(AllocError::SizeOverflow));
    assert_eq!(malloc(&mut heap, usize::MAX - 7), Err(AllocError::OutOfMemory));
    assert_eq!(calloc(&mut heap, usize::MAX, 2), Err(AllocError::SizeOverflow));
    let half = 1 << (usize::BITS / 2);
    assert_eq!(calloc(&mut heap, half, half), Err(AllocError::SizeOverflow));
    assert_eq!(calloc(&mut heap, half, half - 1), Err(AllocError::OutOfMemory));
    assert_eq!(calloc(&mut heap, usize::MAX, 1), Err(AllocError::SizeOverflow));
    assert_eq!(calloc(&mut heap, usize::MAX - 7, 1), Err(AllocError::OutOfMemory));
    assert_eq!(heap.region_size(), 0);
}

#[test]
fn zero_allocate_zeroes_a_reused_block() {
    let mut heap = SmallocAllocator::new(ROOMY);
    let a = malloc(&mut heap, 24).unwrap();
    fill(&mut heap, a, 24, 1);
    assert_eq!(free(&mut heap, a), Ok(()));
    let b = calloc(&mut heap, 5, 4).unwrap();
    assert_eq!(b, a);
    for offset in 0..20 {
        assert_eq!(heap.load(b, offset), Ok(0));
    }
    assert_eq!(heap.load(b, 20), Ok(21));
    assert_eq!(heap.load(b, 23), Ok(24));
}

#[test]
fn zero_allocate_of_nothing_returns_null() {
    let mut heap = SmallocAllocator::new(ROOMY);
    assert_eq!(calloc(&mut heap, 0, 8), Ok(NULL));
    assert_eq!(calloc(&mut heap, 8, 0), Ok(NULL));
    assert_eq!(heap.region_size(), 0);
}

#[test]
fn zero_allocate_grows_the_region() {
    let mut heap = SmallocAllocator::new(ROOMY);
    let a = calloc(&mut heap, 3, 7).unwrap();
    assert_eq!(a, 32);
    assert_eq!(header(&heap, a).size, 24);
    for offset in 0..24 {
        assert_eq!(heap.load(a, offset), Ok(0));
    }
}

#[test]
fn resize_of_null_allocates() {
    let mut heap = SmallocAllocator::new(ROOMY);
    let a = realloc(&mut heap, NULL, 12).unwrap();
    assert_eq!(a, 32);
    assert_eq!(header(&heap, a).size, 16);
    assert_eq!(realloc(&mut heap, NULL, 0), Ok(NULL));
}

#[test]
fn resize_to_a_smaller_size_keeps_the_block() {
    let mut heap = SmallocAllocator::new(ROOMY);
    let a = malloc(&mut heap, 64).unwrap();
    fill(&mut heap, a, 64, 5);
    assert_eq!(realloc(&mut heap, a, 10), Ok(a));
    assert_eq!(realloc(&mut heap, a, 64), Ok(a));
    assert_eq!(realloc(&mut heap, a, 0), Ok(a));
    assert_eq!(header(&heap, a).size, 64);
    assert!(!header(&heap, a).is_freed);
    for offset in 0..64 {
        assert_eq!(heap.load(a, offset), Ok(5 + offset as u8));
    }
}

#[test]
fn resize_moves_and_keeps_the_content() {
    let mut heap = SmallocAllocator::new(ROOMY);
    let a = malloc(&mut heap, 16).unwrap();
    let b = malloc(&mut heap, 16).unwrap();
    fill(&mut heap, a, 16, 30);
    fill(&mut heap, b, 16, 90);
    let c = realloc(&mut heap, a, 40).unwrap();
    assert_eq!(c, b + 16 + METADATA_SIZE);
    assert!(header(&heap, a).is_freed);
    assert_eq!(header(&heap, c).size, 40);
    for offset in 0..16 {
        assert_eq!(heap.load(c, offset), Ok(30 + offset as u8));
        assert_eq!(heap.load(b, offset), Ok(90 + offset as u8));
    }
    assert_eq!(heap.load(a, 0), Err(AllocError::InvalidPointer));
}

#[test]
fn resize_into_a_merged_block_keeps_the_content() {
    let mut heap = SmallocAllocator::new(ROOMY);
    let a = malloc(&mut heap, 8).unwrap();
    let b = malloc(&mut heap, 64).unwrap();
    let c = malloc(&mut heap, 8).unwrap();
    fill(&mut heap, b, 64, 7);
    assert_eq!(free(&mut heap, a), Ok(()));
    let d = realloc(&mut heap, b, 72).unwrap();
    assert_eq!(d, a);
    assert_eq!(
        header(&heap, d),
        Allocation { size: 104, is_freed: false, next_block: Some(c - METADATA_SIZE), magic: MAGIC }
    );
    for offset in 0..64 {
        assert_eq!(heap.load(d, offset), Ok(7 + offset as u8));
    }
    assert_eq!(get_metadata_from_alloc_ptr(&heap, b), None);
}

#[test]
fn resize_in_place_over_a_free_successor() {
    let mut heap = SmallocAllocator::new(ROOMY);
    let a = malloc(&mut heap, 16).unwrap();
    let b = malloc(&mut heap, 200).unwrap();
    let c = malloc(&mut heap, 8).unwrap();
    fill(&mut heap, a, 16, 3);
    assert_eq!(free(&mut heap, b), Ok(()));
    let size = heap.region_size();
    let d = realloc(&mut heap, a, 100).unwrap();
    assert_eq!(d, a);
    assert_eq!(heap.region_size(), size);
    assert_eq!(header(&heap, d).size, 104);
    let rest = header(&heap, d).next_block.unwrap();
    assert_eq!(
        header(&heap, rest + METADATA_SIZE),
        Allocation {
            size: 16 + 200 + METADATA_SIZE - 104 - METADATA_SIZE,
            is_freed: true,
            next_block: Some(c - METADATA_SIZE),
            magic: MAGIC
        }
    );
    for offset in 0..16 {
        assert_eq!(heap.load(d, offset), Ok(3 + offset as u8));
    }
}

#[test]
fn resize_of_an_invalid_address_is_refused() {
    let mut heap = SmallocAllocator::new(ROOMY);
    let a = malloc(&mut heap, 16).unwrap();
    assert_eq!(realloc(&mut heap, a + 1, 100), Err(AllocError::InvalidPointer));
    assert_eq!(realloc(&mut heap, 7, 1), Err(AllocError::InvalidPointer));
    assert_eq!(free(&mut heap, a), Ok(()));
    assert_eq!(realloc(&mut heap, a, 8), Err(AllocError::InvalidPointer));
    assert_eq!(realloc(&mut heap, a, 100), Err(AllocError::InvalidPointer));
    assert_eq!(heap.region_size(), 48);
    assert!(header(&heap, a).is_freed);
}

#[test]
fn resize_that_fails_changes_nothing() {
    let mut heap = SmallocAllocator::new(80);
    let a = malloc(&mut heap, 8).unwrap();
    let b = malloc(&mut heap, 8).unwrap();
    fill(&mut heap, b, 8, 60);
    assert_eq!(heap.region_size(), 80);
    assert_eq!(free(&mut heap, a), Ok(()));
    let first = header(&heap, a);
    let second = header(&heap, b);
    assert_eq!(first, Allocation { size: 8, is_freed: true, next_block: Some(40), magic: MAGIC });
    assert_eq!(second, Allocation { size: 8, is_freed: false, next_block: None, magic: MAGIC });

    assert_eq!(realloc(&mut heap, b, 100), Err(AllocError::OutOfMemory));
    assert_eq!(header(&heap, a), first);
    assert_eq!(header(&heap, b), second);
    assert_eq!(realloc(&mut heap, b, usize::MAX), Err(AllocError::SizeOverflow));
    assert_eq!(realloc(&mut heap, b, usize::MAX - 7), Err(AllocError::OutOfMemory));
    assert_eq!(header(&heap, a), first);
    assert_eq!(header(&heap, b), second);
    assert_eq!(heap.region_size(), 80);
    for offset in 0..8 {
        assert_eq!(heap.load(b, offset), Ok(60 + offset as u8));
    }

    assert_eq!(realloc(&mut heap, b, 48), Ok(a));
    assert_eq!(
        header(&heap, a),
        Allocation { size: 48, is_freed: false, next_block: None, magic: MAGIC }
    );
    for offset in 0..8 {
        assert_eq!(heap.load(a, offset), Ok(60 + offset as u8));
    }
}

#[test]
fn resize_that_fails_in_a_roomy_region_changes_nothing() {
    let mut heap = SmallocAllocator::new(ROOMY);
    let a = malloc(&mut heap, 16).unwrap();
    let b = malloc(&mut heap, 16).unwrap();
    assert_eq!(free(&mut heap, b), Ok(()));
    let size = heap.region_size();
    assert_eq!(realloc(&mut heap, a, usize::MAX - 6), Err(AllocError::SizeOverflow));
    assert_eq!(realloc(&mut heap, a, ROOMY), Err(AllocError::OutOfMemory));
    assert_eq!(
        header(&heap, a),
        Allocation { size: 16, is_freed: false, next_block: Some(48), magic: MAGIC }
    );
    assert_eq!(
        header(&heap, b),
        Allocation { size: 16, is_freed: true, next_block: None, magic: MAGIC }
    );
    assert_eq!(heap.region_size(), size);
}

#[test]
fn earlier_free_neighbours_serve_the_request_once_merged() {
    let mut heap = SmallocAllocator::new(ROOMY);
    let a = malloc(&mut heap, 8).unwrap();
    let b = malloc(&mut heap, 8).unwrap();
    let c = malloc(&mut heap, 64).unwrap();
    let d = malloc(&mut heap, 8).unwrap();
    let size = heap.region_size();
    assert_eq!(free(&mut heap, a), Ok(()));
    assert_eq!(free(&mut heap, b), Ok(()));
    assert_eq!(free(&mut heap, c), Ok(()));
    assert_eq!(malloc(&mut heap, 40), Ok(a));
    assert_eq!(heap.region_size(), size);
    assert_eq!(
        header(&heap, a),
        Allocation { size: 48, is_freed: false, next_block: Some(c - METADATA_SIZE), magic: MAGIC }
    );
    assert_eq!(
        header(&heap, c),
        Allocation { size: 64, is_freed: true, next_block: Some(d - METADATA_SIZE), magic: MAGIC }
    );
}

#[test]
fn scan_returns_fit_or_tail() {
    let mut heap = SmallocAllocator::new(ROOMY);
    let a = malloc(&mut heap, 16).unwrap();
    let b = malloc(&mut heap, 32).unwrap();
    let c = malloc(&mut heap, 16).unwrap();
    assert_eq!(find_free(&mut heap, 8), FreeResult::LastNonEmpty(c - METADATA_SIZE));
    assert_eq!(free(&mut heap, b), Ok(()));
    assert_eq!(find_free(&mut heap, 32), FreeResult::Fit(b - METADATA_SIZE));
    assert_eq!(find_free(&mut heap, 0), FreeResult::Fit(b - METADATA_SIZE));
    assert_eq!(find_free(&mut heap, 33), FreeResult::LastNonEmpty(c - METADATA_SIZE));
    assert!(header(&heap, b).is_freed);
    assert_eq!(free(&mut heap, c), Ok(()));
    assert_eq!(find_free(&mut heap, 81), FreeResult::LastNonEmpty(b - METADATA_SIZE));
    assert_eq!(header(&heap, b).size, 80);
    assert_eq!(header(&heap, b).next_block, None);
    assert_eq!(find_free(&mut heap, 80), FreeResult::Fit(b - METADATA_SIZE));
    assert!(!header(&heap, a).is_freed);
}

#[test]
fn scan_merges_once_per_visited_block() {
    let mut heap = SmallocAllocator::new(ROOMY);
    let a = malloc(&mut heap, 8).unwrap();
    let b = malloc(&mut heap, 8).unwrap();
    let c = malloc(&mut heap, 8).unwrap();
    let d = malloc(&mut heap, 8).unwrap();
    assert_eq!(free(&mut heap, a), Ok(()));
    assert_eq!(free(&mut heap, b), Ok(()));
    assert_eq!(free(&mut heap, c), Ok(()));
    assert_eq!(header(&heap, a).size, 8);
    assert_eq!(find_free(&mut heap, 1000), FreeResult::LastNonEmpty(d - METADATA_SIZE));
    assert_eq!(header(&heap, a).size, 48);
    assert_eq!(header(&heap, a).next_block, Some(c - METADATA_SIZE));
    assert_eq!(header(&heap, c).size, 8);
    assert_eq!(find_free(&mut heap, 1000), FreeResult::LastNonEmpty(d - METADATA_SIZE));
    assert_eq!(header(&heap, a).size, 88);
    assert_eq!(header(&heap, a).next_block, Some(d - METADATA_SIZE));
}

#[test]
fn region_grows_by_header_and_payload() {
    let mut heap = SmallocAllocator::new(200);
    assert_eq!(request_space(&mut heap, 16), Some(0));
    assert_eq!(heap.region_size(), 48);
    assert_eq!(
        header(&heap, 32),
        Allocation { size: 16, is_freed: false, next_block: None, magic: MAGIC }
    );
    assert!(heap.link_block(None, 0));
    assert_eq!(request_space(&mut heap, 0), Some(48));
    assert_eq!(heap.region_size(), 80);
    assert!(heap.link_block(Some(0), 48));
    assert_eq!(request_space(&mut heap, 89), None);
    assert_eq!(heap.region_size(), 80);
    assert_eq!(request_space(&mut heap, usize::MAX), None);
    assert_eq!(request_space(&mut heap, 88), Some(80));
    assert_eq!(heap.region_size(), 200);
    assert!(heap.link_block(Some(48), 80));
    assert_eq!(
        header(&heap, 32),
        Allocation { size: 16, is_freed: false, next_block: Some(48), magic: MAGIC }
    );
    assert_eq!(
        header(&heap, 80),
        Allocation { size: 0, is_freed: false, next_block: Some(80), magic: MAGIC }
    );
    assert_eq!(
        header(&heap, 112),
        Allocation { size: 88, is_freed: false, next_block: None, magic: MAGIC }
    );
    assert_eq!(heap.load(112, 87), Ok(0));
}

#[test]
fn growth_does_not_link_the_new_block() {
    let mut heap = SmallocAllocator::new(ROOMY);
    assert_eq!(request_space(&mut heap, 24), Some(0));
    assert_eq!(heap.heap_base(), None);
    assert_eq!(heap.region_size(), 56);
    assert_eq!(
        get_metadata_from_alloc_ptr(&heap, 32),
        Some(Allocation { size: 24, is_freed: false, next_block: None, magic: MAGIC })
    );
    assert!(heap.link_block(None, 0));
    assert_eq!(heap.heap_base(), Some(0));

    let a = malloc(&mut heap, 16).unwrap();
    assert_eq!(a, 88);
    assert_eq!(free(&mut heap, a), Ok(()));
    let tail = header(&heap, a);
    assert_eq!(tail, Allocation { size: 16, is_freed: true, next_block: None, magic: MAGIC });
    assert_eq!(request_space(&mut heap, 8), Some(104));
    assert_eq!(heap.region_size(), 144);
    assert_eq!(header(&heap, a), tail);
    assert_eq!(header(&heap, 32).next_block, Some(56));
    assert_eq!(
        get_metadata_from_alloc_ptr(&heap, 136),
        Some(Allocation { size: 8, is_freed: false, next_block: None, magic: MAGIC })
    );
    assert!(heap.link_block(Some(56), 104));
    assert_eq!(header(&heap, a).next_block, Some(104));
    assert_eq!(header(&heap, a).size, 16);
    assert_eq!(get_metadata_from_alloc_ptr(&heap, 136).unwrap().next_block, None);
    assert_eq!(heap.store(136, 7, 9), Ok(()));
}

#[test]
fn linking_needs_a_waiting_block_and_the_end_of_the_list() {
    let mut heap = SmallocAllocator::new(ROOMY);
    assert!(!heap.link_block(None, 0));
    let a = malloc(&mut heap, 8).unwrap();
    let b = malloc(&mut heap, 8).unwrap();
    assert!(!heap.link_block(Some(b - METADATA_SIZE), 80));
    assert_eq!(request_space(&mut heap, 8), Some(80));
    assert!(!heap.link_block(None, 80));
    assert!(!heap.link_block(Some(a - METADATA_SIZE), 80));
    assert!(!heap.link_block(Some(b - METADATA_SIZE), 40));
    assert!(!heap.link_block(Some(80), 80));
    assert_eq!(header(&heap, b).next_block, None);
    assert!(heap.link_block(Some(b - METADATA_SIZE), 80));
    assert_eq!(header(&heap, b).next_block, Some(80));
    assert!(!heap.link_block(Some(80), 80));
    assert_eq!(header(&heap, 112).next_block, None);
}

#[test]
fn shortfall_is_what_the_limit_lacks() {
    let mut heap = SmallocAllocator::new(100);
    assert_eq!(heap.shortfall(1), Some(0));
    assert_eq!(heap.shortfall(68), Some(4));
    assert_eq!(heap.shortfall(0), Some(0));
    let a = malloc(&mut heap, 16).unwrap();
    assert_eq!(heap.shortfall(13), Some(0));
    assert_eq!(heap.shortfall(17), Some(4));
    assert_eq!(heap.shortfall(24), Some(4));
    assert_eq!(heap.shortfall(25), Some(12));
    assert_eq!(heap.shortfall(usize::MAX), None);
    assert_eq!(heap.shortfall(usize::MAX - 7), None);
    assert_eq!(heap.shortfall(usize::MAX - 87), Some(usize::MAX - 107));
    assert_eq!(heap.shortfall(usize::MAX - 79), None);
    assert_eq!(malloc(&mut heap, 24), Err(AllocError::OutOfMemory));
    assert!(heap.raise_limit(3));
    assert_eq!(heap.limit(), 103);
    assert_eq!(malloc(&mut heap, 24), Err(AllocError::OutOfMemory));
    assert!(heap.raise_limit(1));
    assert_eq!(heap.shortfall(24), Some(0));
    assert_eq!(malloc(&mut heap, 24), Ok(80));
    assert!(!heap.raise_limit(usize::MAX - 103));
    assert_eq!(heap.limit(), 104);
    assert!(heap.raise_limit(usize::MAX - 104));
    assert_eq!(heap.limit(), usize::MAX);
    assert!(heap.raise_limit(0));
    assert!(!heap.raise_limit(1));
    assert_eq!(header(&heap, a).next_block, Some(48));
}

#[test]
fn split_cuts_only_roomy_blocks() {
    let mut heap = SmallocAllocator::new(ROOMY);
    let a = malloc(&mut heap, 104).unwrap();
    let addr = a - METADATA_SIZE;
    assert!(!split_block(&mut heap, addr, 72));
    assert!(!split_block(&mut heap, addr, 104));
    assert!(!split_block(&mut heap, addr, usize::MAX));
    assert!(!split_block(&mut heap, a, 8));
    assert_eq!(header(&heap, a).size, 104);
    assert!(split_block(&mut heap, addr, 71));
    assert_eq!(
        header(&heap, a),
        Allocation { size: 71, is_freed: false, next_block: Some(addr + 32 + 71), magic: MAGIC }
    );
    assert_eq!(
        header(&heap, a + 71 + METADATA_SIZE),
        Allocation { size: 1, is_freed: true, next_block: None, magic: MAGIC }
    );
    assert_eq!(heap.region_size(), 136);
}

#[test]
fn header_is_found_only_at_payload_addresses() {
    let mut heap = SmallocAllocator::new(ROOMY);
    assert_eq!(get_metadata_from_alloc_ptr(&heap, 32), None);
    let a = malloc(&mut heap, 16).unwrap();
    assert_eq!(get_metadata_from_alloc_ptr(&heap, NULL), None);
    assert_eq!(get_metadata_from_alloc_ptr(&heap, 31), None);
    assert_eq!(get_metadata_from_alloc_ptr(&heap, 33), None);
    assert_eq!(get_metadata_from_alloc_ptr(&heap, a + 16), None);
    assert_eq!(get_metadata_from_alloc_ptr(&heap, usize::MAX), None);
    assert_eq!(
        get_metadata_from_alloc_ptr(&heap, a),
        Some(Allocation { size: 16, is_freed: false, next_block: None, magic: MAGIC })
    );
}

#[test]
fn bytes_outside_a_live_payload_are_out_of_reach() {
    let mut heap = SmallocAllocator::new(ROOMY);
    let a = malloc(&mut heap, 9).unwrap();
    assert_eq!(heap.store(a, 15, 1), Ok(()));
    assert_eq!(heap.store(a, 16, 1), Err(AllocError::InvalidPointer));
    assert_eq!(heap.store(a, usize::MAX, 1), Err(AllocError::InvalidPointer));
    assert_eq!(heap.store(a + 1, 0, 1), Err(AllocError::InvalidPointer));
    assert_eq!(heap.store(NULL, 0, 1), Err(AllocError::InvalidPointer));
    assert_eq!(heap.load(a, 15), Ok(1));
    assert_eq!(heap.load(a, 16), Err(AllocError::InvalidPointer));
    assert_eq!(heap.load(a - METADATA_SIZE, 0), Err(AllocError::InvalidPointer));
    assert_eq!(free(&mut heap, a), Ok(()));
    assert_eq!(heap.store(a, 0, 1), Err(AllocError::InvalidPointer));
    assert_eq!(heap.load(a, 15), Err(AllocError::InvalidPointer));
}
