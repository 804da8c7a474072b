//! The four entry points: allocate, release, resize and zero-allocate.

use crate::header::{align_up, round_up, AllocError, FreeResult, METADATA_SIZE, NULL};
use crate::heap::{
    find_free, get_metadata_from_alloc_ptr, request_space, split_block, SmallocAllocator,
};
use crate::laws::{
    lemma_allocate_keeps_bytes, lemma_allocate_keeps_live, lemma_allocate_serves,
    lemma_resize_keeps_content, lemma_zero_allocate_zeroed,
};
use crate::model::{
    address, allocate_result, allocate_state, can_grow, in_payload, index_of, is_live,
    lemma_block_within,
    lemma_index_of, lemma_locate, locate, release_result, release_state, resize_result,
    resize_state, zero_allocate_result, zero_allocate_state,
};
use vstd::prelude::*;

verus! {

/// Allocates `requested_size` bytes and returns the address of the payload.
///
/// A request for no bytes returns the null address and changes nothing.
/// Otherwise the size is rounded up to a multiple of eight, and the request
/// is served by the first free block that a scan from the heap origin finds
/// large enough, cut down to the rounded size where it has room for a further
/// block; or, where no block fits, by a new block that the region grows by,
/// linked here as the successor of the last block, or as the heap origin
/// where there was no block before.
/// Fails with `SizeOverflow` where the rounded size does not fit the machine
/// word, and with `OutOfMemory` where no block fits and the region may not
/// grow by a header and the rounded size.
pub fn malloc(heap: &mut SmallocAllocator, requested_size: usize) -> (result: Result<
    usize,
    AllocError,
>)
    requires
        old(heap).wf(),
    ensures
        final(heap).wf(),
        final(heap)@ == allocate_state(old(heap)@, requested_size as nat),
        address(result) == allocate_result(old(heap)@, requested_size as nat),
        requested_size == 0 ==> result == Ok::<usize, AllocError>(NULL),
        requested_size == 0 ==> final(heap)@ == old(heap)@,
        requested_size > 0 ==> match result {
            Ok(ptr) => ptr != NULL && forall|offset: nat|
                offset < requested_size ==> #[trigger] in_payload(
                    final(heap)@.blocks,
                    ptr as nat,
                    offset,
                ),
            Err(_) => final(heap)@.memory == old(heap)@.memory,
        },
        forall|q: nat| #[trigger]
            is_live(old(heap)@.blocks, q) ==> {
                &&& is_live(final(heap)@.blocks, q)
                &&& final(heap)@.blocks[index_of(final(heap)@.blocks, q)]
                    == old(heap)@.blocks[index_of(old(heap)@.blocks, q)]
                &&& requested_size > 0 ==> address(result) != Ok::<nat, AllocError>(q)
            },
        final(heap)@.memory.subrange(0, old(heap)@.memory.len() as int) == old(heap)@.memory,
{
    proof {
        lemma_allocate_keeps_bytes(heap@, requested_size as nat);
        let served = allocate_state(heap@, requested_size as nat);
        let answer = allocate_result(heap@, requested_size as nat);
        assert forall|q: nat| #[trigger] is_live(heap@.blocks, q) implies {
            &&& is_live(served.blocks, q)
            &&& served.blocks[index_of(served.blocks, q)] == heap@.blocks[index_of(heap@.blocks, q)]
            &&& requested_size > 0 ==> answer != Ok::<nat, AllocError>(q)
        } by {
            lemma_allocate_keeps_live(heap@, requested_size as nat, q);
        }
        if requested_size > 0 {
            match allocate_result(heap@, requested_size as nat) {
                Ok(p) => {
                    lemma_allocate_serves(heap@, requested_size as nat, p);
                },
                Err(_) => {},
            }
        }
    }
    if requested_size == 0 {
        return Ok(NULL);
    }
    let size: usize = match align_up(requested_size) {
        Some(size) => size,
        None => {
            return Err(AllocError::SizeOverflow);
        },
    };
    let ghost before = heap@;
    let ghost end = heap@.memory.len();
    let block: usize = match heap.heap_base() {
        Some(_) => {
            let ghost found = locate(before.blocks, 0, size as nat);
            proof {
                lemma_locate(before.blocks, end, 0, size as nat);
                lemma_index_of(found.blocks, end, found.index);
                lemma_block_within(found.blocks, end, found.index);
            }
            match find_free(heap, size) {
                FreeResult::Fit(addr) => {
                    heap.mark_block(addr, false);
                    proof {
                        lemma_index_of(heap@.blocks, end, found.index);
                    }
                    split_block(heap, addr, size);
                    addr
                },
                FreeResult::LastNonEmpty(last) => {
                    match request_space(heap, size) {
                        Some(new_alloc) => {
                            heap.link_block(Some(last), new_alloc);
                            new_alloc
                        },
                        None => {
                            return Err(AllocError::OutOfMemory);
                        },
                    }
                },
            }
        },
        None => {
            match request_space(heap, size) {
                Some(new_alloc) => {
                    heap.link_block(None, new_alloc);
                    new_alloc
                },
                None => {
                    return Err(AllocError::OutOfMemory);
                },
            }
        },
    };
    Ok(block + METADATA_SIZE)
}

/// Releases the block whose payload begins at `ptr`.
///
/// The null address is accepted and nothing happens. For the payload address
/// of a block in use, the block is marked free and absorbs its successor if
/// that is free too. Every other address, that of a block already free
/// included, is refused with `InvalidPointer`, and nothing changes.
pub fn free(heap: &mut SmallocAllocator, ptr: usize) -> (result: Result<(), AllocError>)
    requires
        old(heap).wf(),
    ensures
        final(heap).wf(),
        final(heap)@ == release_state(old(heap)@, ptr as nat),
        result == release_result(old(heap)@, ptr as nat),
        final(heap)@.memory == old(heap)@.memory,
        result is Err ==> final(heap)@ == old(heap)@,
{
    if ptr == NULL {
        return Ok(());
    }
    let metadata = match get_metadata_from_alloc_ptr(heap, ptr) {
        Some(metadata) => metadata,
        None => {
            return Err(AllocError::InvalidPointer);
        },
    };
    if metadata.is_freed {
        return Err(AllocError::InvalidPointer);
    }
    let ghost before = heap@;
    let ghost i = index_of(before.blocks, ptr as nat);
    let addr: usize = ptr - METADATA_SIZE;
    heap.mark_block(addr, true);
    match metadata.next_block {
        Some(next_addr) => {
            proof {
                lemma_index_of(heap@.blocks, heap@.memory.len(), i);
                lemma_index_of(heap@.blocks, heap@.memory.len(), i + 1);
                lemma_block_within(heap@.blocks, heap@.memory.len(), i + 1);
            }
            match get_metadata_from_alloc_ptr(heap, next_addr + METADATA_SIZE) {
                Some(next) => {
                    if next.is_freed {
                        heap.merge_next(addr);
                    }
                },
                None => {},
            }
        },
        None => {},
    }
    Ok(())
}

/// Resizes the block whose payload begins at `ptr` to `size` bytes and
/// returns the address of its payload, which may have moved.
///
/// For the null address this is `malloc(size)`. An address that is not the
/// payload address of a block in use is refused with `InvalidPointer`. A
/// block that already holds `size` bytes is left as it is, and `ptr` is
/// returned. Otherwise the block is marked free, `size` bytes are allocated,
/// and the old payload is copied to the new one. Where that allocation
/// cannot be served, its error is returned and nothing has changed: the
/// block is in use as before, and the list is as it was.
pub fn realloc(heap: &mut SmallocAllocator, ptr: usize, size: usize) -> (result: Result<
    usize,
    AllocError,
>)
    requires
        old(heap).wf(),
    ensures
        final(heap).wf(),
        final(heap)@ == resize_state(old(heap)@, ptr as nat, size as nat),
        address(result) == resize_result(old(heap)@, ptr as nat, size as nat),
        is_live(old(heap)@.blocks, ptr as nat) && result is Ok ==> forall|k: nat|
            k < size && k < old(heap)@.blocks[index_of(old(heap)@.blocks, ptr as nat)].size
                ==> #[trigger] final(heap)@.memory[(result->Ok_0 + k) as int]
                == old(heap)@.memory[(ptr + k) as int],
        ptr != NULL && result is Err ==> final(heap)@ == old(heap)@,
{
    proof {
        let s = heap@;
        if is_live(s.blocks, ptr as nat) {
            match resize_result(s, ptr as nat, size as nat) {
                Ok(p) => {
                    let resized = resize_state(s, ptr as nat, size as nat);
                    assert forall|k: nat|
                        k < size && k < s.blocks[index_of(s.blocks, ptr as nat)].size implies
                        #[trigger] resized.memory[(p + k) as int] == s.memory[(ptr + k) as int] by {
                        lemma_resize_keeps_content(s, ptr as nat, size as nat, p, k);
                    }
                },
                Err(_) => {},
            }
        }
    }
    if ptr == NULL {
        return malloc(heap, size);
    }
    let metadata = match get_metadata_from_alloc_ptr(heap, ptr) {
        Some(metadata) => metadata,
        None => {
            return Err(AllocError::InvalidPointer);
        },
    };
    if metadata.is_freed {
        return Err(AllocError::InvalidPointer);
    }
    let ghost before = heap@;
    let ghost i = index_of(heap@.blocks, ptr as nat);
    proof {
        lemma_block_within(heap@.blocks, heap@.memory.len(), i);
    }
    if size > metadata.size {
        if align_up(size).is_none() {
            return Err(AllocError::SizeOverflow);
        }
        // Where the region cannot grow, the request may fail after the scan
        // has merged blocks: the list is copied to go back to.
        let saved = match heap.shortfall(size) {
            Some(0) => None,
            _ => Some(heap.save_list()),
        };
        heap.mark_block(ptr - METADATA_SIZE, true);
        let ghost freed = heap@;
        proof {
            lemma_allocate_keeps_bytes(freed, size as nat);
        }
        match malloc(heap, size) {
            Ok(ret) => {
                proof {
                    lemma_allocate_serves(freed, size as nat, ret as nat);
                }
                heap.copy_payload(ptr, ret, metadata.size);
                Ok(ret)
            },
            Err(e) => {
                match saved {
                    Some(list) => {
                        heap.restore_list(list, Ghost(before));
                    },
                    None => {
                        assert(can_grow(freed, round_up(size as nat)));
                    },
                }
                Err(e)
            },
        }
    } else {
        Ok(ptr)
    }
}

/// Allocates `nelem` elements of `elsize` bytes each and sets them to zero.
///
/// Fails with `SizeOverflow`, and changes nothing, where the product of the
/// two does not fit the machine word. Otherwise this is `malloc` of the
/// product, and the bytes asked for read as zero afterwards.
pub fn calloc(heap: &mut SmallocAllocator, nelem: usize, elsize: usize) -> (result: Result<
    usize,
    AllocError,
>)
    requires
        old(heap).wf(),
    ensures
        final(heap).wf(),
        final(heap)@ == zero_allocate_state(old(heap)@, nelem as nat, elsize as nat),
        address(result) == zero_allocate_result(old(heap)@, nelem as nat, elsize as nat),
        match result {
            Ok(ptr) => forall|k: nat|
                k < nelem * elsize ==> #[trigger] final(heap)@.memory[(ptr + k) as int] == 0u8,
            Err(_) => final(heap)@.memory == old(heap)@.memory,
        },
{
    proof {
        let s = heap@;
        match zero_allocate_result(s, nelem as nat, elsize as nat) {
            Ok(p) => {
                let zeroed = zero_allocate_state(s, nelem as nat, elsize as nat);
                assert forall|k: nat| k < nelem * elsize implies
                    #[trigger] zeroed.memory[(p + k) as int] == 0u8 by {
                    lemma_zero_allocate_zeroed(s, nelem as nat, elsize as nat, p, k);
                }
            },
            Err(_) => {
                if nelem * elsize <= usize::MAX {
                    lemma_allocate_keeps_bytes(s, (nelem * elsize) as nat);
                }
            },
        }
    }
    let size: usize = match nelem.checked_mul(elsize) {
        Some(size) => size,
        None => {
            return Err(AllocError::SizeOverflow);
        },
    };
    let ghost before = heap@;
    match malloc(heap, size) {
        Ok(ptr) => {
            proof {
                if size > 0 {
                    lemma_allocate_serves(before, size as nat, ptr as nat);
                }
            }
            heap.zero_payload(ptr, size);
            Ok(ptr)
        },
        Err(e) => Err(e),
    }
}

} // verus!
