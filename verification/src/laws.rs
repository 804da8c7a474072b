//! What holds of the heap whatever is asked of it, stated over the model.

use crate::header::{round_up, AllocError, METADATA_SIZE};
use crate::model::{
    allocate_result, allocate_state, block_end, can_coalesce, can_grow, can_split, chain_wf,
    extend, granular, in_payload, index_of, is_block, is_live, lemma_allocate_wf,
    lemma_block_within,
    lemma_chain_ordered, lemma_coalesce_wf, lemma_index_of, lemma_locate, lemma_mark_wf,
    lemma_release_wf, lemma_split_wf, locate, mark, payload, release_state, resize_result,
    resize_state, state_wf, visit, zero_allocate_result, zero_allocate_state, Block, HeapState,
};
use vstd::prelude::*;

verus! {

/// The payloads of two different blocks of a tiled region do not overlap: one
/// of them ends, and a header follows, before the other begins.
pub proof fn lemma_payloads_disjoint(blocks: Seq<Block>, end: nat, p: nat, q: nat)
    requires
        chain_wf(blocks, end),
        is_block(blocks, p),
        is_block(blocks, q),
        p != q,
    ensures
        p + blocks[index_of(blocks, p)].size + METADATA_SIZE <= q || q + blocks[index_of(
            blocks,
            q,
        )].size + METADATA_SIZE <= p,
{
    let i = index_of(blocks, p);
    let j = index_of(blocks, q);
    if i < j {
        lemma_chain_ordered(blocks, end, i, j);
    } else if j < i {
        lemma_chain_ordered(blocks, end, j, i);
    }
}

/// A request for no bytes returns the null address and changes nothing.
pub proof fn lemma_allocate_nothing(s: HeapState)
    ensures
        allocate_result(s, 0) == Ok::<nat, AllocError>(0),
        allocate_state(s, 0) == s,
{
}

/// A request never shrinks the region, and the bytes that the region had keep
/// their values. A request that fails leaves the bytes as they are.
pub proof fn lemma_allocate_keeps_bytes(s: HeapState, requested: nat)
    requires
        state_wf(s),
    ensures
        s.memory.len() <= allocate_state(s, requested).memory.len(),
        allocate_state(s, requested).memory.subrange(0, s.memory.len() as int) == s.memory,
        allocate_state(s, requested).limit == s.limit,
        allocate_result(s, requested) is Err ==> allocate_state(s, requested).memory == s.memory,
        s.blocks.len() > 0 ==> allocate_state(s, requested).blocks.len() > 0,
{
    let served = allocate_state(s, requested);
    lemma_allocate_wf(s, requested);
    assert(served.memory.subrange(0, s.memory.len() as int) =~= s.memory);
}

/// A request for at least one byte that is served yields a block in use that
/// holds the rounded size, at an address that is not null, inside the region:
/// every byte asked for is a payload byte of that block. The region never
/// shrinks, and the bytes it had keep their values.
pub proof fn lemma_allocate_serves(s: HeapState, requested: nat, p: nat)
    requires
        state_wf(s),
        requested > 0,
        allocate_result(s, requested) == Ok::<nat, AllocError>(p),
    ensures
        p != 0,
        is_live(allocate_state(s, requested).blocks, p),
        forall|offset: nat|
            offset < requested ==> #[trigger] in_payload(
                allocate_state(s, requested).blocks,
                p,
                offset,
            ),
        ({
            let served = allocate_state(s, requested);
            let b = served.blocks[index_of(served.blocks, p)];
            &&& b.size >= round_up(requested) >= requested
            &&& p + b.size <= served.memory.len()
            &&& s.memory.len() <= served.memory.len()
            &&& served.memory.subrange(0, s.memory.len() as int) == s.memory
            &&& served.limit == s.limit
        }),
{
    let size = round_up(requested);
    let served = allocate_state(s, requested);
    let end = s.memory.len();
    lemma_allocate_wf(s, requested);
    lemma_allocate_keeps_bytes(s, requested);
    if s.blocks.len() > 0 && locate(s.blocks, 0, size).fit {
        let found = locate(s.blocks, 0, size);
        lemma_locate(s.blocks, end, 0, size);
        let taken = mark(found.blocks, found.index, false);
        lemma_mark_wf(found.blocks, end, found.index, false);
        if can_split(taken, found.index, size) {
            lemma_split_wf(taken, end, found.index, size);
        }
        assert(served.blocks[found.index].addr == found.blocks[found.index].addr);
        lemma_index_of(served.blocks, end, found.index);
        lemma_block_within(served.blocks, end, found.index);
    } else {
        let scanned = if s.blocks.len() == 0 {
            s
        } else {
            lemma_locate(s.blocks, end, 0, size);
            HeapState { blocks: locate(s.blocks, 0, size).blocks, ..s }
        };
        assert(can_grow(scanned, size));
        assert(served == extend(scanned, size));
        let last = served.blocks.len() - 1;
        assert(served.blocks[last] == Block { addr: end, size, is_free: false });
        lemma_index_of(served.blocks, served.memory.len(), last);
    }
}

/// A scan leaves every block in use in the list, as it is. Returns the index
/// at which block `k` stands after the scan.
pub proof fn lemma_locate_keeps(blocks: Seq<Block>, end: nat, i: int, size: nat, k: int) -> (at:
    int)
    requires
        chain_wf(blocks, end),
        0 <= i < blocks.len(),
        0 <= k < blocks.len(),
        !blocks[k].is_free,
    ensures
        0 <= at < locate(blocks, i, size).blocks.len(),
        locate(blocks, i, size).blocks[at] == blocks[k],
    decreases blocks.len() - i,
{
    let seen = visit(blocks, i);
    let moved = if can_coalesce(blocks, i) && k > i {
        k - 1
    } else {
        k
    };
    if can_coalesce(blocks, i) {
        lemma_coalesce_wf(blocks, end, i);
    }
    assert(seen[moved] == blocks[k]);
    if seen[i].is_free && seen[i].size >= size {
        moved
    } else if i + 1 >= seen.len() {
        moved
    } else {
        lemma_locate_keeps(seen, end, i + 1, size, moved)
    }
}

/// Serving a request leaves every block that was in use in use, at its
/// address and with its size, and the address handed out is none of theirs.
pub proof fn lemma_allocate_keeps_live(s: HeapState, requested: nat, q: nat)
    requires
        state_wf(s),
        is_live(s.blocks, q),
    ensures
        is_live(allocate_state(s, requested).blocks, q),
        allocate_state(s, requested).blocks[index_of(allocate_state(s, requested).blocks, q)]
            == s.blocks[index_of(s.blocks, q)],
        requested > 0 ==> allocate_result(s, requested) != Ok::<nat, AllocError>(q),
{
    let size = round_up(requested);
    let served = allocate_state(s, requested);
    let end = s.memory.len();
    let k = index_of(s.blocks, q);
    lemma_allocate_wf(s, requested);
    if requested == 0 || size > usize::MAX {
    } else {
        let found = locate(s.blocks, 0, size);
        lemma_locate(s.blocks, end, 0, size);
        let kept = lemma_locate_keeps(s.blocks, end, 0, size, k);
        lemma_block_within(found.blocks, end, kept);
        if found.fit {
            let taken = mark(found.blocks, found.index, false);
            lemma_mark_wf(found.blocks, end, found.index, false);
            let at = if can_split(taken, found.index, size) && kept > found.index {
                kept + 1
            } else {
                kept
            };
            assert(served.blocks[at] == s.blocks[k]);
            assert(payload(served.blocks[at]) == q);
            lemma_index_of(served.blocks, end, at);
            if kept < found.index {
                lemma_chain_ordered(found.blocks, end, kept, found.index);
            } else {
                lemma_chain_ordered(found.blocks, end, found.index, kept);
            }
        } else {
            if can_grow(s, size) {
                assert(served.blocks[kept] == s.blocks[k]);
            }
            assert(payload(served.blocks[kept]) == q);
            lemma_index_of(served.blocks, served.memory.len(), kept);
        }
    }
}

/// Releasing an address leaves every other block that was in use in use, at
/// its address and with its size.
pub proof fn lemma_release_keeps_live(s: HeapState, ptr: nat, q: nat)
    requires
        state_wf(s),
        is_live(s.blocks, q),
        q != ptr,
    ensures
        is_live(release_state(s, ptr).blocks, q),
        release_state(s, ptr).blocks[index_of(release_state(s, ptr).blocks, q)]
            == s.blocks[index_of(s.blocks, q)],
{
    let end = s.memory.len();
    let released = release_state(s, ptr);
    lemma_release_wf(s, ptr);
    if ptr == 0 || !is_live(s.blocks, ptr) {
    } else {
        let i = index_of(s.blocks, ptr);
        let k = index_of(s.blocks, q);
        let freed = mark(s.blocks, i, true);
        let at = if can_coalesce(freed, i) && k > i {
            k - 1
        } else {
            k
        };
        assert(released.blocks[at] == s.blocks[k]);
        assert(payload(released.blocks[at]) == q);
        lemma_index_of(released.blocks, end, at);
    }
}

/// A scan from `i` on leaves the blocks before `i` as they are.
pub proof fn lemma_locate_prefix(blocks: Seq<Block>, end: nat, i: int, size: nat, k: int)
    requires
        chain_wf(blocks, end),
        0 <= k < i < blocks.len(),
    ensures
        locate(blocks, i, size).blocks[k] == blocks[k],
    decreases blocks.len() - i,
{
    let seen = visit(blocks, i);
    if can_coalesce(blocks, i) {
        lemma_coalesce_wf(blocks, end, i);
    }
    assert(seen[k] == blocks[k]);
    if seen[i].is_free && seen[i].size >= size {
    } else if i + 1 >= seen.len() {
    } else {
        lemma_locate_prefix(seen, end, i + 1, size, k);
    }
}

/// First fit: in the list that a scan from `i` on leaves, no block from `i`
/// on that stands before the fit is free and holds `size` bytes; and where
/// the scan ends without a fit, no block from `i` on is.
pub proof fn lemma_locate_first_fit(blocks: Seq<Block>, end: nat, i: int, size: nat, k: int)
    requires
        chain_wf(blocks, end),
        0 <= i < blocks.len(),
        i <= k < locate(blocks, i, size).blocks.len(),
        locate(blocks, i, size).fit ==> k < locate(blocks, i, size).index,
    ensures
        !(locate(blocks, i, size).blocks[k].is_free && locate(blocks, i, size).blocks[k].size
            >= size),
    decreases blocks.len() - i,
{
    let seen = visit(blocks, i);
    if can_coalesce(blocks, i) {
        lemma_coalesce_wf(blocks, end, i);
    }
    if seen[i].is_free && seen[i].size >= size {
    } else if i + 1 >= seen.len() {
    } else if k == i {
        lemma_locate_prefix(seen, end, i + 1, size, i);
    } else {
        lemma_locate_first_fit(seen, end, i + 1, size, k);
    }
}

/// Where some block from `i` on is free and holds `size` bytes, a scan from
/// `i` on ends with a fit, at that block or at one before it.
pub proof fn lemma_locate_finds(blocks: Seq<Block>, end: nat, i: int, size: nat, k: int)
    requires
        chain_wf(blocks, end),
        0 <= i <= k < blocks.len(),
        blocks[k].is_free,
        blocks[k].size >= size,
    ensures
        locate(blocks, i, size).fit,
        locate(blocks, i, size).blocks[locate(blocks, i, size).index].addr <= blocks[k].addr,
    decreases blocks.len() - i,
{
    let seen = visit(blocks, i);
    if can_coalesce(blocks, i) {
        lemma_coalesce_wf(blocks, end, i);
    }
    if i < k {
        lemma_chain_ordered(blocks, end, i, k);
    }
    if seen[i].is_free && seen[i].size >= size {
    } else {
        let moved = if can_coalesce(blocks, i) {
            k - 1
        } else {
            k
        };
        assert(seen[moved] == blocks[k]);
        lemma_locate_finds(seen, end, i + 1, size, moved);
    }
}

/// Where two neighbours from `i` on are free, follow a block in use or stand
/// where the scan begins, and hold `size` bytes once merged, a scan from `i`
/// on ends with a fit.
pub proof fn lemma_locate_merges(blocks: Seq<Block>, end: nat, i: int, size: nat, k: int)
    requires
        chain_wf(blocks, end),
        0 <= i <= k,
        k + 1 < blocks.len(),
        blocks[k].is_free,
        blocks[k + 1].is_free,
        blocks[k].size + METADATA_SIZE + blocks[k + 1].size >= size,
        k > i ==> !blocks[k - 1].is_free,
    ensures
        locate(blocks, i, size).fit,
    decreases blocks.len() - i,
{
    let seen = visit(blocks, i);
    if can_coalesce(blocks, i) {
        lemma_coalesce_wf(blocks, end, i);
    }
    if seen[i].is_free && seen[i].size >= size {
    } else if can_coalesce(blocks, i) {
        assert(seen[k - 1] == blocks[k]);
        assert(seen[k] == blocks[k + 1]);
        if k - 1 > i + 1 {
            assert(seen[k - 2] == blocks[k - 1]);
        }
        lemma_locate_merges(seen, end, i + 1, size, k - 1);
    } else {
        lemma_locate_merges(blocks, end, i + 1, size, k);
    }
}

/// After a block was released, a request whose rounded size the released
/// block holds, with what it absorbed on release, is served without growing
/// the region, at the address of that block or below it.
pub proof fn lemma_release_then_allocate(s: HeapState, ptr: nat, requested: nat)
    requires
        state_wf(s),
        is_live(s.blocks, ptr),
        requested > 0,
        round_up(requested) <= release_state(s, ptr).blocks[index_of(s.blocks, ptr)].size,
    ensures
        ({
            let released = release_state(s, ptr);
            &&& allocate_result(released, requested) is Ok
            &&& allocate_result(released, requested)->Ok_0 <= ptr
            &&& allocate_state(released, requested).memory == s.memory
        }),
{
    let end = s.memory.len();
    let size = round_up(requested);
    let i = index_of(s.blocks, ptr);
    let released = release_state(s, ptr);
    let freed = mark(s.blocks, i, true);
    lemma_release_wf(s, ptr);
    lemma_block_within(released.blocks, end, i);
    assert(released.blocks[i].is_free);
    assert(released.blocks[i].addr == s.blocks[i].addr);
    lemma_locate_finds(released.blocks, end, 0, size, i);
}

/// Where two neighbours that follow a block in use are released, the first
/// before the second, a request whose rounded size fits the two payloads and
/// the header between them is served without growing the region.
pub proof fn lemma_release_two_then_allocate(s: HeapState, j: int, requested: nat)
    requires
        state_wf(s),
        0 <= j,
        j + 2 < s.blocks.len(),
        !s.blocks[j].is_free,
        !s.blocks[j + 1].is_free,
        !s.blocks[j + 2].is_free,
        requested > 0,
        round_up(requested) <= s.blocks[j + 1].size + METADATA_SIZE + s.blocks[j + 2].size,
    ensures
        ({
            let first = release_state(s, payload(s.blocks[j + 1]));
            let both = release_state(first, payload(s.blocks[j + 2]));
            &&& allocate_result(both, requested) is Ok
            &&& allocate_state(both, requested).memory == s.memory
        }),
{
    let end = s.memory.len();
    let size = round_up(requested);
    let first = release_state(s, payload(s.blocks[j + 1]));
    lemma_index_of(s.blocks, end, j + 1);
    lemma_release_wf(s, payload(s.blocks[j + 1]));
    assert(first.blocks == mark(s.blocks, j + 1, true));
    let both = release_state(first, payload(s.blocks[j + 2]));
    assert(first.blocks[j + 2] == s.blocks[j + 2]);
    lemma_index_of(first.blocks, end, j + 2);
    lemma_release_wf(first, payload(s.blocks[j + 2]));
    lemma_block_within(s.blocks, end, j + 2);
    assert(both.blocks[j] == s.blocks[j]);
    assert(both.blocks[j + 1] == first.blocks[j + 1]);
    assert(both.blocks[j + 2].is_free && both.blocks[j + 2].size >= s.blocks[j + 2].size);
    lemma_locate_merges(both.blocks, end, 0, size, j + 1);
}

/// Where a request is served by a free block that holds more than the
/// rounded size and a header, that block is cut down to the rounded size, and
/// what is left of it follows as a free block.
pub proof fn lemma_allocate_splits(s: HeapState, requested: nat)
    requires
        state_wf(s),
        requested > 0,
        round_up(requested) <= usize::MAX,
        s.blocks.len() > 0,
        locate(s.blocks, 0, round_up(requested)).fit,
        ({
            let found = locate(s.blocks, 0, round_up(requested));
            found.blocks[found.index].size > round_up(requested) + METADATA_SIZE
        }),
    ensures
        ({
            let found = locate(s.blocks, 0, round_up(requested));
            let fit = found.blocks[found.index];
            let served = allocate_state(s, requested).blocks;
            &&& served.len() == found.blocks.len() + 1
            &&& served[found.index] == Block {
                addr: fit.addr,
                size: round_up(requested),
                is_free: false,
            }
            &&& served[found.index + 1] == Block {
                addr: fit.addr + METADATA_SIZE as nat + round_up(requested),
                size: (fit.size - round_up(requested) - METADATA_SIZE) as nat,
                is_free: true,
            }
        }),
{
    lemma_locate(s.blocks, s.memory.len(), 0, round_up(requested));
}

/// A resize that succeeds keeps the content: the bytes of the old payload, up
/// to the lesser of the old and the new size, are found at the address
/// returned.
pub proof fn lemma_resize_keeps_content(s: HeapState, ptr: nat, new_size: nat, p: nat, k: nat)
    requires
        state_wf(s),
        is_live(s.blocks, ptr),
        resize_result(s, ptr, new_size) == Ok::<nat, AllocError>(p),
        k < new_size,
        k < s.blocks[index_of(s.blocks, ptr)].size,
    ensures
        ptr + k < s.memory.len(),
        p + k < resize_state(s, ptr, new_size).memory.len(),
        resize_state(s, ptr, new_size).memory[(p + k) as int] == s.memory[(ptr + k) as int],
{
    let end = s.memory.len();
    let i = index_of(s.blocks, ptr);
    let old_size = s.blocks[i].size;
    lemma_block_within(s.blocks, end, i);
    if ptr != 0 && new_size > old_size {
        let freed = HeapState { blocks: mark(s.blocks, i, true), ..s };
        lemma_mark_wf(s.blocks, end, i, true);
        lemma_allocate_serves(freed, new_size, p);
        let moved = allocate_state(freed, new_size);
        assert(moved.memory[(ptr + k) as int] == moved.memory.subrange(0, end as int)[(ptr
            + k) as int]);
    }
}

/// A resize of a block that cannot be served changes nothing.
pub proof fn lemma_resize_failure(s: HeapState, ptr: nat, new_size: nat)
    requires
        ptr != 0,
        resize_result(s, ptr, new_size) is Err,
    ensures
        resize_state(s, ptr, new_size) == s,
{
}

/// A resize leaves every other block that was in use in use, at its address
/// and with its size, and the bytes of its payload keep their values.
pub proof fn lemma_resize_keeps_others(s: HeapState, ptr: nat, new_size: nat, q: nat, k: nat)
    requires
        state_wf(s),
        is_live(s.blocks, q),
        q != ptr,
        k < s.blocks[index_of(s.blocks, q)].size,
    ensures
        is_live(resize_state(s, ptr, new_size).blocks, q),
        resize_state(s, ptr, new_size).blocks[index_of(resize_state(s, ptr, new_size).blocks, q)]
            == s.blocks[index_of(s.blocks, q)],
        q + k < s.memory.len() <= resize_state(s, ptr, new_size).memory.len(),
        resize_state(s, ptr, new_size).memory[(q + k) as int] == s.memory[(q + k) as int],
{
    let end = s.memory.len();
    let at = index_of(s.blocks, q);
    lemma_block_within(s.blocks, end, at);
    if ptr == 0 {
        lemma_allocate_keeps_live(s, new_size, q);
        lemma_allocate_keeps_bytes(s, new_size);
        let served = allocate_state(s, new_size);
        assert(served.memory[(q + k) as int] == served.memory.subrange(0, end as int)[(q
            + k) as int]);
    } else if !is_live(s.blocks, ptr) {
    } else {
        let i = index_of(s.blocks, ptr);
        let old_size = s.blocks[i].size;
        if new_size > old_size {
            let freed = HeapState { blocks: mark(s.blocks, i, true), ..s };
            lemma_mark_wf(s.blocks, end, i, true);
            assert(freed.blocks[at] == s.blocks[at]);
            assert(payload(freed.blocks[at]) == q);
            lemma_index_of(freed.blocks, end, at);
            lemma_allocate_keeps_live(freed, new_size, q);
            lemma_allocate_keeps_bytes(freed, new_size);
            lemma_allocate_wf(freed, new_size);
            let moved = allocate_state(freed, new_size);
            assert(moved.memory[(q + k) as int] == moved.memory.subrange(0, end as int)[(q
            + k) as int]);
            match allocate_result(freed, new_size) {
                Ok(p) => {
                    lemma_allocate_serves(freed, new_size, p);
                    lemma_payloads_disjoint(moved.blocks, moved.memory.len(), p, q);
                },
                Err(_) => {},
            }
        }
    }
}

/// A zeroed request leaves every block that was in use in use, at its address
/// and with its size, and the bytes of its payload keep their values.
pub proof fn lemma_zero_allocate_keeps_others(
    s: HeapState,
    count: nat,
    element_size: nat,
    q: nat,
    k: nat,
)
    requires
        state_wf(s),
        is_live(s.blocks, q),
        k < s.blocks[index_of(s.blocks, q)].size,
    ensures
        is_live(zero_allocate_state(s, count, element_size).blocks, q),
        zero_allocate_state(s, count, element_size).blocks[index_of(
            zero_allocate_state(s, count, element_size).blocks,
            q,
        )] == s.blocks[index_of(s.blocks, q)],
        q + k < s.memory.len() <= zero_allocate_state(s, count, element_size).memory.len(),
        zero_allocate_state(s, count, element_size).memory[(q + k) as int] == s.memory[(q
            + k) as int],
{
    let end = s.memory.len();
    let total = count * element_size;
    lemma_block_within(s.blocks, end, index_of(s.blocks, q));
    if total <= usize::MAX {
        lemma_allocate_keeps_live(s, total, q);
        lemma_allocate_keeps_bytes(s, total);
        lemma_allocate_wf(s, total);
        let served = allocate_state(s, total);
        assert(served.memory[(q + k) as int] == served.memory.subrange(0, end as int)[(q
            + k) as int]);
        match allocate_result(s, total) {
            Ok(p) => {
                if total > 0 {
                    lemma_allocate_serves(s, total, p);
                    lemma_payloads_disjoint(served.blocks, served.memory.len(), p, q);
                }
            },
            Err(_) => {},
        }
    }
}

/// Where every block holds a multiple of eight bytes, every header and every
/// payload begins at a multiple of eight.
pub proof fn lemma_granular_addresses(blocks: Seq<Block>, end: nat, i: int)
    requires
        chain_wf(blocks, end),
        granular(blocks),
        0 <= i < blocks.len(),
    ensures
        blocks[i].addr % 8 == 0,
        payload(blocks[i]) % 8 == 0,
    decreases i,
{
    if i > 0 {
        lemma_granular_addresses(blocks, end, i - 1);
        assert(block_end(blocks[i - 1]) == blocks[i].addr);
    }
}

/// A scan keeps every block at a multiple of eight bytes.
pub proof fn lemma_locate_granular(blocks: Seq<Block>, end: nat, i: int, size: nat)
    requires
        chain_wf(blocks, end),
        granular(blocks),
        0 <= i < blocks.len(),
    ensures
        granular(locate(blocks, i, size).blocks),
    decreases blocks.len() - i,
{
    let seen = visit(blocks, i);
    if can_coalesce(blocks, i) {
        lemma_coalesce_wf(blocks, end, i);
        assert forall|k: int| 0 <= k < seen.len() implies (#[trigger] seen[k]).size % 8 == 0 by {
            if k < i {
                assert(seen[k] == blocks[k]);
            } else if k == i {
                assert(blocks[i].size % 8 == 0 && blocks[i + 1].size % 8 == 0);
            } else {
                assert(seen[k] == blocks[k + 1]);
            }
        }
    }
    if seen[i].is_free && seen[i].size >= size {
    } else if i + 1 >= seen.len() {
    } else {
        lemma_locate_granular(seen, end, i + 1, size);
    }
}

/// Where every block holds a multiple of eight bytes, serving a request
/// keeps it so, and the address handed out is a multiple of eight.
pub proof fn lemma_allocate_granular(s: HeapState, requested: nat)
    requires
        state_wf(s),
        granular(s.blocks),
    ensures
        granular(allocate_state(s, requested).blocks),
        allocate_result(s, requested) is Ok ==> allocate_result(s, requested)->Ok_0 % 8 == 0,
{
    let size = round_up(requested);
    let served = allocate_state(s, requested);
    let end = s.memory.len();
    lemma_allocate_wf(s, requested);
    if requested == 0 || size > usize::MAX {
    } else if s.blocks.len() == 0 {
        if can_grow(s, size) {
            assert forall|k: int| 0 <= k < served.blocks.len() implies (
            #[trigger] served.blocks[k]).size % 8 == 0 by {}
        }
    } else {
        let found = locate(s.blocks, 0, size);
        lemma_locate(s.blocks, end, 0, size);
        lemma_locate_granular(s.blocks, end, 0, size);
        if found.fit {
            let taken = mark(found.blocks, found.index, false);
            lemma_granular_addresses(found.blocks, end, found.index);
            assert forall|k: int| 0 <= k < served.blocks.len() implies (
            #[trigger] served.blocks[k]).size % 8 == 0 by {
                if can_split(taken, found.index, size) {
                    if k < found.index {
                        assert(served.blocks[k] == found.blocks[k]);
                    } else if k == found.index {
                    } else if k == found.index + 1 {
                        assert(found.blocks[found.index].size % 8 == 0);
                    } else {
                        assert(served.blocks[k] == found.blocks[k - 1]);
                    }
                } else {
                    assert(served.blocks[k].size == found.blocks[k].size);
                }
            }
        } else {
            lemma_granular_addresses(found.blocks, end, found.index);
            assert(block_end(found.blocks[found.index]) == end);
            if can_grow(s, size) {
                assert forall|k: int| 0 <= k < served.blocks.len() implies (
                #[trigger] served.blocks[k]).size % 8 == 0 by {
                    if k < found.blocks.len() {
                        assert(served.blocks[k] == found.blocks[k]);
                    }
                }
            }
        }
    }
}

/// Where every block holds a multiple of eight bytes, releasing an address
/// keeps it so.
pub proof fn lemma_release_granular(s: HeapState, ptr: nat)
    requires
        state_wf(s),
        granular(s.blocks),
    ensures
        granular(release_state(s, ptr).blocks),
{
    let released = release_state(s, ptr);
    if ptr == 0 || !is_live(s.blocks, ptr) {
    } else {
        let i = index_of(s.blocks, ptr);
        let freed = mark(s.blocks, i, true);
        assert forall|k: int| 0 <= k < released.blocks.len() implies (
        #[trigger] released.blocks[k]).size % 8 == 0 by {
            if can_coalesce(freed, i) {
                if k < i {
                    assert(released.blocks[k] == s.blocks[k]);
                } else if k == i {
                    assert(s.blocks[i].size % 8 == 0 && s.blocks[i + 1].size % 8 == 0);
                } else {
                    assert(released.blocks[k] == s.blocks[k + 1]);
                }
            } else {
                assert(released.blocks[k].size == s.blocks[k].size);
            }
        }
    }
}

/// Where every block holds a multiple of eight bytes, a resize keeps it so,
/// and the address it returns for a block in use is a multiple of eight.
pub proof fn lemma_resize_granular(s: HeapState, ptr: nat, new_size: nat)
    requires
        state_wf(s),
        granular(s.blocks),
    ensures
        granular(resize_state(s, ptr, new_size).blocks),
        resize_result(s, ptr, new_size) is Ok ==> resize_result(s, ptr, new_size)->Ok_0 % 8 == 0,
{
    let end = s.memory.len();
    if ptr == 0 {
        lemma_allocate_granular(s, new_size);
    } else if !is_live(s.blocks, ptr) {
    } else {
        let i = index_of(s.blocks, ptr);
        lemma_granular_addresses(s.blocks, end, i);
        if new_size > s.blocks[i].size {
            let freed = HeapState { blocks: mark(s.blocks, i, true), ..s };
            lemma_mark_wf(s.blocks, end, i, true);
            assert forall|k: int| 0 <= k < freed.blocks.len() implies (
            #[trigger] freed.blocks[k]).size % 8 == 0 by {
                assert(freed.blocks[k].size == s.blocks[k].size);
            }
            lemma_allocate_granular(freed, new_size);
        }
    }
}

/// Where every block holds a multiple of eight bytes, a zeroed request keeps
/// it so, and the address handed out is a multiple of eight.
pub proof fn lemma_zero_allocate_granular(s: HeapState, count: nat, element_size: nat)
    requires
        state_wf(s),
        granular(s.blocks),
    ensures
        granular(zero_allocate_state(s, count, element_size).blocks),
        zero_allocate_result(s, count, element_size) is Ok ==> zero_allocate_result(
            s,
            count,
            element_size,
        )->Ok_0 % 8 == 0,
{
    if count * element_size <= usize::MAX {
        lemma_allocate_granular(s, count * element_size);
    }
}

/// A zeroed request that succeeds yields bytes that read as zero: all
/// `count * element_size` bytes from the address returned on.
pub proof fn lemma_zero_allocate_zeroed(
    s: HeapState,
    count: nat,
    element_size: nat,
    p: nat,
    k: nat,
)
    requires
        state_wf(s),
        zero_allocate_result(s, count, element_size) == Ok::<nat, AllocError>(p),
        k < count * element_size,
    ensures
        p + k < zero_allocate_state(s, count, element_size).memory.len(),
        zero_allocate_state(s, count, element_size).memory[(p + k) as int] == 0,
{
    lemma_allocate_serves(s, count * element_size, p);
}

} // verus!
