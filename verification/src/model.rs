//! The mathematical model of the heap: the list of blocks in address order,
//! the bytes of the region, and what each operation makes of them.

use crate::header::{round_up, AllocError, Allocation, FreeResult, MAGIC, METADATA_SIZE};
use vstd::prelude::*;

verus! {

/// One block of the heap as contracts see it.
pub struct Block {
    /// Address of the block's header.
    pub addr: nat,
    /// Usable bytes behind the header.
    pub size: nat,
    /// Whether the block is available for reuse.
    pub is_free: bool,
}

/// The whole heap as contracts see it.
pub struct HeapState {
    /// The blocks reachable from the heap origin, in list order.
    pub blocks: Seq<Block>,
    /// The bytes of the region, indexed by address.
    pub memory: Seq<u8>,
    /// The size beyond which the region is refused further growth.
    pub limit: nat,
    /// A block that the region grew by and that no header links yet. It lies
    /// behind the list and is no part of it.
    pub pending: Option<Block>,
}

/// What a scan for a free block yields: the list as the scan leaves it, the
/// index of the block it stopped at, and whether that block fits.
pub struct Located {
    pub blocks: Seq<Block>,
    pub index: int,
    pub fit: bool,
}

/// The payload address of a block: what callers hold.
pub open spec fn payload(b: Block) -> nat {
    b.addr + METADATA_SIZE as nat
}

/// The first address behind a block's payload.
pub open spec fn block_end(b: Block) -> nat {
    b.addr + METADATA_SIZE as nat + b.size
}

/// The blocks tile the region `[0, end)`: the first header is at the start of
/// the region, every block ends where its successor's header begins, and the
/// last block ends where the region ends.
pub open spec fn chain_wf(blocks: Seq<Block>, end: nat) -> bool {
    &&& blocks.len() == 0 ==> end == 0
    &&& blocks.len() > 0 ==> blocks[0].addr == 0 && block_end(blocks.last()) == end
    &&& forall|i: int, j: int|
        0 <= i && j == i + 1 && j < blocks.len() ==> block_end(#[trigger] blocks[i]) == (
        #[trigger] blocks[j]).addr
}

/// The first address behind the list: where a block that is not linked yet
/// begins, or else the end of the region.
pub open spec fn list_end(s: HeapState) -> nat {
    match s.pending {
        Some(b) => b.addr,
        None => s.memory.len(),
    }
}

/// The validity of a heap state between growth and linking: the blocks of the
/// list tile the region up to a block that is not linked yet, if there is
/// one, which then fills the rest of the region; and the region lies within
/// its limit, which fits the machine word.
pub open spec fn state_valid(s: HeapState) -> bool {
    &&& chain_wf(s.blocks, list_end(s))
    &&& s.pending is Some ==> block_end(s.pending->Some_0) == s.memory.len()
    &&& s.memory.len() <= s.limit
    &&& s.limit <= usize::MAX
}

/// The validity of a heap state between calls: it is valid, and every block
/// of the region is on the list.
pub open spec fn state_wf(s: HeapState) -> bool {
    state_valid(s) && s.pending is None
}

/// Whether every block of the list holds a multiple of eight bytes.
pub open spec fn granular(blocks: Seq<Block>) -> bool {
    forall|i: int| 0 <= i < blocks.len() ==> (#[trigger] blocks[i]).size % 8 == 0
}

/// Whether some block of the list has `ptr` as its payload address.
pub open spec fn is_block(blocks: Seq<Block>, ptr: nat) -> bool {
    exists|i: int| 0 <= i < blocks.len() && payload(#[trigger] blocks[i]) == ptr
}

/// The index of the block whose payload address is `ptr`.
pub open spec fn index_of(blocks: Seq<Block>, ptr: nat) -> int {
    choose|i: int| 0 <= i < blocks.len() && payload(#[trigger] blocks[i]) == ptr
}

/// Whether some block of the list has its header at `addr`.
pub open spec fn is_header(blocks: Seq<Block>, addr: nat) -> bool {
    is_block(blocks, addr + METADATA_SIZE as nat)
}

/// The index of the block whose header is at `addr`.
pub open spec fn header_index(blocks: Seq<Block>, addr: nat) -> int {
    index_of(blocks, addr + METADATA_SIZE as nat)
}

/// Whether `ptr` is the payload address of a block in use.
pub open spec fn is_live(blocks: Seq<Block>, ptr: nat) -> bool {
    is_block(blocks, ptr) && !blocks[index_of(blocks, ptr)].is_free
}

/// The address of the last header of the list.
pub open spec fn tail_of(blocks: Seq<Block>) -> Option<usize> {
    if blocks.len() > 0 {
        Some(blocks.last().addr as usize)
    } else {
        None
    }
}

/// The header of the block whose payload begins at `ptr`: that of a block of
/// the list, or that of the block that is not linked yet.
pub open spec fn header_at(s: HeapState, ptr: nat) -> Option<Allocation> {
    if is_block(s.blocks, ptr) {
        Some(header_of(s.blocks, index_of(s.blocks, ptr)))
    } else if s.pending is Some && payload(s.pending->Some_0) == ptr {
        Some(
            Allocation {
                size: s.pending->Some_0.size as usize,
                is_freed: s.pending->Some_0.is_free,
                next_block: None,
                magic: MAGIC,
            },
        )
    } else {
        None
    }
}

/// The header that block `i` of the list carries.
pub open spec fn header_of(blocks: Seq<Block>, i: int) -> Allocation
    recommends
        0 <= i < blocks.len(),
{
    Allocation {
        size: blocks[i].size as usize,
        is_freed: blocks[i].is_free,
        next_block: if i + 1 < blocks.len() {
            Some(blocks[i + 1].addr as usize)
        } else {
            None
        },
        magic: MAGIC,
    }
}

/// The list with block `i` marked free or in use.
pub open spec fn mark(blocks: Seq<Block>, i: int, is_free: bool) -> Seq<Block> {
    blocks.update(i, Block { is_free, ..blocks[i] })
}

/// Whether block `i` and its successor are both free.
pub open spec fn can_coalesce(blocks: Seq<Block>, i: int) -> bool {
    0 <= i && i + 1 < blocks.len() && blocks[i].is_free && blocks[i + 1].is_free
}

/// The list after block `i` has absorbed its successor: the successor leaves
/// the list, and its header and payload become payload of block `i`.
pub open spec fn coalesce(blocks: Seq<Block>, i: int) -> Seq<Block>
    recommends
        0 <= i,
        i + 1 < blocks.len(),
{
    blocks.remove(i + 1).update(
        i,
        Block { size: blocks[i].size + METADATA_SIZE as nat + blocks[i + 1].size, ..blocks[i] },
    )
}

/// The list as a visit of block `i` leaves it: merged with its successor once
/// if both are free.
pub open spec fn visit(blocks: Seq<Block>, i: int) -> Seq<Block> {
    if can_coalesce(blocks, i) {
        coalesce(blocks, i)
    } else {
        blocks
    }
}

/// The first-fit scan from block `i` on. Each visited block first absorbs its
/// successor if both are free; the scan stops at the first block that then is
/// free and holds `size` bytes, or else at the last block.
pub open spec fn locate(blocks: Seq<Block>, i: int, size: nat) -> Located
    recommends
        0 <= i < blocks.len(),
    decreases blocks.len() - i,
{
    let seen = visit(blocks, i);
    if i < 0 || i >= blocks.len() {
        Located { blocks, index: i, fit: false }
    } else if seen[i].is_free && seen[i].size >= size {
        Located { blocks: seen, index: i, fit: true }
    } else if i + 1 >= seen.len() {
        Located { blocks: seen, index: i, fit: false }
    } else {
        locate(seen, i + 1, size)
    }
}

/// What a scan hands to its caller: the address of the header it stopped at,
/// as a fit or as the last block.
pub open spec fn found_result(found: Located) -> FreeResult {
    if found.fit {
        FreeResult::Fit(found.blocks[found.index].addr as usize)
    } else {
        FreeResult::LastNonEmpty(found.blocks[found.index].addr as usize)
    }
}

/// Whether block `i` holds `needed` bytes, a further header and at least one
/// byte more.
pub open spec fn can_split(blocks: Seq<Block>, i: int, needed: nat) -> bool {
    0 <= i < blocks.len() && blocks[i].size > needed + METADATA_SIZE as nat
}

/// The list after block `i` was cut down to `needed` bytes: what is left of it
/// follows as a new free block.
pub open spec fn split(blocks: Seq<Block>, i: int, needed: nat) -> Seq<Block>
    recommends
        can_split(blocks, i, needed),
{
    blocks.update(i, Block { size: needed, ..blocks[i] }).insert(
        i + 1,
        Block {
            addr: blocks[i].addr + METADATA_SIZE as nat + needed,
            size: (blocks[i].size - needed - METADATA_SIZE as nat) as nat,
            is_free: true,
        },
    )
}

/// The list after block `i` was cut down to `needed` bytes where it has the
/// room, and the list as it was where it has not.
pub open spec fn split_if_roomy(blocks: Seq<Block>, i: int, needed: nat) -> Seq<Block> {
    if can_split(blocks, i, needed) {
        split(blocks, i, needed)
    } else {
        blocks
    }
}

/// Whether the region may grow by a header and `size` bytes of payload.
pub open spec fn can_grow(s: HeapState, size: nat) -> bool {
    s.memory.len() + METADATA_SIZE as nat + size <= s.limit
}

/// The state after the region grew by a header and `size` bytes. The new
/// bytes are zero. They hold one block in use that no header links yet: the
/// list and its blocks are as they were.
pub open spec fn grow(s: HeapState, size: nat) -> HeapState {
    HeapState {
        memory: s.memory + Seq::new(METADATA_SIZE as nat + size, |k: int| 0u8),
        pending: Some(Block { addr: s.memory.len(), size, is_free: false }),
        ..s
    }
}

/// The state after the region was asked to grow by one block of `size` bytes:
/// grown where the limit allows it, unchanged where it does not.
pub open spec fn grow_if_allowed(s: HeapState, size: nat) -> HeapState {
    if can_grow(s, size) {
        grow(s, size)
    } else {
        s
    }
}

/// Whether the block at `block` waits to be linked and `last` names the end
/// of the list: the address of its last header, or nothing for an empty list.
pub open spec fn can_link(s: HeapState, last: Option<usize>, block: nat) -> bool {
    s.pending is Some && s.pending->Some_0.addr == block && last == tail_of(s.blocks)
}

/// The state after the block that waited was linked: it is the last block of
/// the list, and the origin of a list that was empty.
pub open spec fn link(s: HeapState) -> HeapState
    recommends
        s.pending is Some,
{
    HeapState { blocks: s.blocks.push(s.pending->Some_0), pending: None, ..s }
}

/// The state after the region grew by one block of `size` bytes and the block
/// was linked.
pub open spec fn extend(s: HeapState, size: nat) -> HeapState {
    link(grow(s, size))
}

/// The state after a new block of `size` bytes was asked for: grown and
/// linked where the limit allows it, unchanged where it does not.
pub open spec fn extend_if_allowed(s: HeapState, size: nat) -> HeapState {
    if can_grow(s, size) {
        extend(s, size)
    } else {
        s
    }
}

/// By how many bytes the limit is short of the region with one block of the
/// rounded size more; nothing where that size does not fit the machine word.
pub open spec fn shortfall(s: HeapState, requested: nat) -> Option<usize> {
    let needed = s.memory.len() + METADATA_SIZE as nat + round_up(requested);
    if needed > usize::MAX {
        None
    } else if needed <= s.limit {
        Some(0usize)
    } else {
        Some((needed - s.limit) as usize)
    }
}

/// The state that a request for `requested` bytes leaves.
pub open spec fn allocate_state(s: HeapState, requested: nat) -> HeapState {
    let size = round_up(requested);
    if requested == 0 || size > usize::MAX {
        s
    } else if s.blocks.len() == 0 {
        extend_if_allowed(s, size)
    } else {
        let found = locate(s.blocks, 0, size);
        if found.fit {
            HeapState {
                blocks: split_if_roomy(mark(found.blocks, found.index, false), found.index, size),
                ..s
            }
        } else {
            extend_if_allowed(HeapState { blocks: found.blocks, ..s }, size)
        }
    }
}

/// What a request for `requested` bytes returns: the null address for an empty
/// request, else the payload address of the block that serves it, or the
/// reason why none does.
pub open spec fn allocate_result(s: HeapState, requested: nat) -> Result<nat, AllocError> {
    let size = round_up(requested);
    if requested == 0 {
        Ok(0)
    } else if size > usize::MAX {
        Err(AllocError::SizeOverflow)
    } else if s.blocks.len() > 0 && locate(s.blocks, 0, size).fit {
        let found = locate(s.blocks, 0, size);
        Ok(payload(found.blocks[found.index]))
    } else if can_grow(s, size) {
        Ok(s.memory.len() + METADATA_SIZE as nat)
    } else {
        Err(AllocError::OutOfMemory)
    }
}

/// An address or an error as contracts see it.
pub open spec fn address(result: Result<usize, AllocError>) -> Result<nat, AllocError> {
    match result {
        Ok(p) => Ok(p as nat),
        Err(e) => Err(e),
    }
}

/// The state that releasing `ptr` leaves: the block is marked free and absorbs
/// its successor if that is free too. Nothing changes for the null address or
/// for an address that is not the payload address of a block in use.
pub open spec fn release_state(s: HeapState, ptr: nat) -> HeapState {
    if ptr == 0 || !is_live(s.blocks, ptr) {
        s
    } else {
        let i = index_of(s.blocks, ptr);
        HeapState { blocks: visit(mark(s.blocks, i, true), i), ..s }
    }
}

/// What releasing `ptr` returns.
pub open spec fn release_result(s: HeapState, ptr: nat) -> Result<(), AllocError> {
    if ptr == 0 || is_live(s.blocks, ptr) {
        Ok(())
    } else {
        Err(AllocError::InvalidPointer)
    }
}

/// Whether `ptr + offset` is the address of a payload byte of the block in
/// use whose payload begins at `ptr`.
pub open spec fn in_payload(blocks: Seq<Block>, ptr: nat, offset: nat) -> bool {
    is_live(blocks, ptr) && offset < blocks[index_of(blocks, ptr)].size
}

/// The bytes of `memory` after `len` bytes from `src` on were copied to `dst`
/// on. The bytes copied are those that `memory` held before the copy, also
/// where the two ranges overlap.
pub open spec fn copy_bytes(memory: Seq<u8>, src: nat, dst: nat, len: nat) -> Seq<u8> {
    Seq::new(
        memory.len(),
        |k: int|
            if dst <= k < dst + len {
                memory[k - dst + src]
            } else {
                memory[k]
            },
    )
}

/// The bytes of `memory` with `len` zero bytes from `start` on.
pub open spec fn zero_bytes(memory: Seq<u8>, start: nat, len: nat) -> Seq<u8> {
    Seq::new(
        memory.len(),
        |k: int|
            if start <= k < start + len {
                0u8
            } else {
                memory[k]
            },
    )
}

/// The state that resizing the block at `ptr` to `new_size` bytes leaves.
///
/// For the null address this is a plain request. A block that already holds
/// `new_size` bytes stays as it is. Otherwise the block is marked free, a
/// request for `new_size` bytes is served, and the old payload is copied to
/// the new one. Where that request cannot be served nothing changes: the
/// block stays in use, and the list is as it was.
pub open spec fn resize_state(s: HeapState, ptr: nat, new_size: nat) -> HeapState {
    if ptr == 0 {
        allocate_state(s, new_size)
    } else if !is_live(s.blocks, ptr) {
        s
    } else {
        let i = index_of(s.blocks, ptr);
        let old_size = s.blocks[i].size;
        if new_size <= old_size {
            s
        } else {
            let freed = HeapState { blocks: mark(s.blocks, i, true), ..s };
            let moved = allocate_state(freed, new_size);
            match allocate_result(freed, new_size) {
                Ok(p) => HeapState { memory: copy_bytes(moved.memory, ptr, p, old_size), ..moved },
                Err(_) => s,
            }
        }
    }
}

/// What resizing the block at `ptr` to `new_size` bytes returns.
pub open spec fn resize_result(s: HeapState, ptr: nat, new_size: nat) -> Result<nat, AllocError> {
    if ptr == 0 {
        allocate_result(s, new_size)
    } else if !is_live(s.blocks, ptr) {
        Err(AllocError::InvalidPointer)
    } else {
        let i = index_of(s.blocks, ptr);
        if new_size <= s.blocks[i].size {
            Ok(ptr)
        } else {
            allocate_result(HeapState { blocks: mark(s.blocks, i, true), ..s }, new_size)
        }
    }
}

/// The state that a request for `count` zeroed elements of `element_size`
/// bytes leaves.
pub open spec fn zero_allocate_state(s: HeapState, count: nat, element_size: nat) -> HeapState {
    let total = count * element_size;
    if total > usize::MAX {
        s
    } else {
        let served = allocate_state(s, total);
        match allocate_result(s, total) {
            Ok(p) => HeapState { memory: zero_bytes(served.memory, p, total), ..served },
            Err(_) => served,
        }
    }
}

/// What a request for `count` zeroed elements of `element_size` bytes returns.
pub open spec fn zero_allocate_result(s: HeapState, count: nat, element_size: nat) -> Result<
    nat,
    AllocError,
> {
    if count * element_size > usize::MAX {
        Err(AllocError::SizeOverflow)
    } else {
        allocate_result(s, count * element_size)
    }
}

/// In a tiled region the headers stand in strictly increasing address order,
/// and no block reaches into a later one.
pub proof fn lemma_chain_ordered(blocks: Seq<Block>, end: nat, i: int, j: int)
    requires
        chain_wf(blocks, end),
        0 <= i < j < blocks.len(),
    ensures
        block_end(blocks[i]) <= blocks[j].addr,
        block_end(blocks[j]) <= end,
    decreases blocks.len() - i,
{
    if i + 1 < j {
        lemma_chain_ordered(blocks, end, i + 1, j);
        assert(block_end(blocks[i]) == blocks[i + 1].addr);
    } else {
        assert(block_end(blocks[i]) == blocks[j].addr);
        if j + 1 < blocks.len() {
            lemma_chain_ordered(blocks, end, j, blocks.len() - 1);
        }
    }
}

/// Every block of a tiled region lies within the region.
pub proof fn lemma_block_within(blocks: Seq<Block>, end: nat, i: int)
    requires
        chain_wf(blocks, end),
        0 <= i < blocks.len(),
    ensures
        block_end(blocks[i]) <= end,
{
    if i + 1 < blocks.len() {
        lemma_chain_ordered(blocks, end, i, blocks.len() - 1);
    }
}

/// In a tiled region a payload address belongs to one block only.
pub proof fn lemma_index_of(blocks: Seq<Block>, end: nat, i: int)
    requires
        chain_wf(blocks, end),
        0 <= i < blocks.len(),
    ensures
        is_block(blocks, payload(blocks[i])),
        index_of(blocks, payload(blocks[i])) == i,
{
    let j = index_of(blocks, payload(blocks[i]));
    if j < i {
        lemma_chain_ordered(blocks, end, j, i);
    } else if i < j {
        lemma_chain_ordered(blocks, end, i, j);
    }
}

/// Merging a block with its successor keeps the region tiled.
pub proof fn lemma_coalesce_wf(blocks: Seq<Block>, end: nat, i: int)
    requires
        chain_wf(blocks, end),
        0 <= i,
        i + 1 < blocks.len(),
    ensures
        chain_wf(coalesce(blocks, i), end),
        coalesce(blocks, i).len() == blocks.len() - 1,
{
    let merged = coalesce(blocks, i);
    assert(block_end(blocks[i]) == blocks[i + 1].addr);
    assert forall|a: int, b: int| 0 <= a && b == a + 1 && b < merged.len() implies block_end(
        #[trigger] merged[a],
    ) == (#[trigger] merged[b]).addr by {
        if a < i {
            assert(merged[a] == blocks[a]);
            assert(merged[b].addr == blocks[b].addr);
            assert(block_end(blocks[a]) == blocks[b].addr);
        } else if a == i {
            assert(merged[b] == blocks[i + 2]);
            assert(block_end(blocks[i + 1]) == blocks[i + 2].addr);
        } else {
            assert(merged[a] == blocks[a + 1]);
            assert(merged[b] == blocks[b + 1]);
            assert(block_end(blocks[a + 1]) == blocks[b + 1].addr);
        }
    }
}

/// Cutting a block in two keeps the region tiled.
pub proof fn lemma_split_wf(blocks: Seq<Block>, end: nat, i: int, needed: nat)
    requires
        chain_wf(blocks, end),
        can_split(blocks, i, needed),
    ensures
        chain_wf(split(blocks, i, needed), end),
        split(blocks, i, needed).len() == blocks.len() + 1,
{
    let cut = split(blocks, i, needed);
    assert forall|a: int, b: int| 0 <= a && b == a + 1 && b < cut.len() implies block_end(
        #[trigger] cut[a],
    ) == (#[trigger] cut[b]).addr by {
        if b < i {
            assert(cut[a] == blocks[a]);
            assert(cut[b] == blocks[b]);
            assert(block_end(blocks[a]) == blocks[b].addr);
        } else if b == i {
            assert(cut[a] == blocks[a]);
            assert(cut[b].addr == blocks[b].addr);
            assert(block_end(blocks[a]) == blocks[b].addr);
        } else if a == i {
        } else if a == i + 1 {
            assert(cut[b] == blocks[i + 1]);
            assert(block_end(blocks[i]) == blocks[i + 1].addr);
        } else {
            assert(cut[a] == blocks[a - 1]);
            assert(cut[b] == blocks[b - 1]);
            assert(block_end(blocks[a - 1]) == blocks[b - 1].addr);
        }
    }
}

/// Marking a block free or in use keeps the region tiled.
pub proof fn lemma_mark_wf(blocks: Seq<Block>, end: nat, i: int, is_free: bool)
    requires
        chain_wf(blocks, end),
        0 <= i < blocks.len(),
    ensures
        chain_wf(mark(blocks, i, is_free), end),
{
    let marked = mark(blocks, i, is_free);
    assert forall|a: int, b: int| 0 <= a && b == a + 1 && b < marked.len() implies block_end(
        #[trigger] marked[a],
    ) == (#[trigger] marked[b]).addr by {
        assert(block_end(blocks[a]) == blocks[b].addr);
    }
}

/// A scan keeps the region tiled and stops inside the list: at a free block
/// that holds `size` bytes, or else at the last block.
pub proof fn lemma_locate(blocks: Seq<Block>, end: nat, i: int, size: nat)
    requires
        chain_wf(blocks, end),
        0 <= i < blocks.len(),
    ensures
        chain_wf(locate(blocks, i, size).blocks, end),
        i <= locate(blocks, i, size).index < locate(blocks, i, size).blocks.len(),
        locate(blocks, i, size).blocks.len() <= blocks.len(),
        locate(blocks, i, size).fit ==> {
            let found = locate(blocks, i, size);
            found.blocks[found.index].is_free && found.blocks[found.index].size >= size
        },
        !locate(blocks, i, size).fit ==> locate(blocks, i, size).index + 1 == locate(
            blocks,
            i,
            size,
        ).blocks.len(),
    decreases blocks.len() - i,
{
    let seen = visit(blocks, i);
    if can_coalesce(blocks, i) {
        lemma_coalesce_wf(blocks, end, i);
    }
    if seen[i].is_free && seen[i].size >= size {
    } else if i + 1 >= seen.len() {
    } else {
        lemma_locate(seen, end, i + 1, size);
    }
}

/// Growth leaves a valid state with one block that waits to be linked.
pub proof fn lemma_grow_valid(s: HeapState, size: nat)
    requires
        state_wf(s),
        can_grow(s, size),
    ensures
        state_valid(grow(s, size)),
        grow(s, size).pending is Some,
{
}

/// Linking the block that waits puts every block of the region on the list.
pub proof fn lemma_link_wf(s: HeapState)
    requires
        state_valid(s),
        s.pending is Some,
    ensures
        state_wf(link(s)),
{
    let g = link(s);
    assert forall|a: int, b: int| 0 <= a && b == a + 1 && b < g.blocks.len() implies block_end(
        #[trigger] g.blocks[a],
    ) == (#[trigger] g.blocks[b]).addr by {
        if b < s.blocks.len() {
            assert(block_end(s.blocks[a]) == s.blocks[b].addr);
        } else {
            assert(g.blocks[a] == s.blocks.last());
        }
    }
}

/// Growing the region by one block and linking it keeps the state valid.
pub proof fn lemma_extend_wf(s: HeapState, size: nat)
    requires
        state_wf(s),
        can_grow(s, size),
    ensures
        state_wf(extend(s, size)),
{
    lemma_grow_valid(s, size);
    lemma_link_wf(grow(s, size));
}

/// Serving a request keeps the state valid, and a heap that has an origin
/// keeps it.
pub proof fn lemma_allocate_wf(s: HeapState, requested: nat)
    requires
        state_wf(s),
    ensures
        state_wf(allocate_state(s, requested)),
        s.blocks.len() > 0 ==> allocate_state(s, requested).blocks.len() > 0,
{
    let size = round_up(requested);
    if requested == 0 || size > usize::MAX {
    } else if s.blocks.len() == 0 {
        if can_grow(s, size) {
            lemma_extend_wf(s, size);
        }
    } else {
        let found = locate(s.blocks, 0, size);
        lemma_locate(s.blocks, s.memory.len(), 0, size);
        if found.fit {
            let taken = mark(found.blocks, found.index, false);
            lemma_mark_wf(found.blocks, s.memory.len(), found.index, false);
            if can_split(taken, found.index, size) {
                lemma_split_wf(taken, s.memory.len(), found.index, size);
            }
        } else {
            let scanned = HeapState { blocks: found.blocks, ..s };
            if can_grow(scanned, size) {
                lemma_extend_wf(scanned, size);
            }
        }
    }
}

/// Releasing an address keeps the state valid, and a heap that has an
/// origin keeps it.
pub proof fn lemma_release_wf(s: HeapState, ptr: nat)
    requires
        state_wf(s),
    ensures
        state_wf(release_state(s, ptr)),
        s.blocks.len() > 0 ==> release_state(s, ptr).blocks.len() > 0,
{
    if ptr == 0 || !is_live(s.blocks, ptr) {
    } else {
        let i = index_of(s.blocks, ptr);
        let freed = mark(s.blocks, i, true);
        lemma_mark_wf(s.blocks, s.memory.len(), i, true);
        if can_coalesce(freed, i) {
            lemma_coalesce_wf(freed, s.memory.len(), i);
        }
    }
}

/// A resize keeps the state valid.
pub proof fn lemma_resize_wf(s: HeapState, ptr: nat, new_size: nat)
    requires
        state_wf(s),
    ensures
        state_wf(resize_state(s, ptr, new_size)),
{
    if ptr == 0 {
        lemma_allocate_wf(s, new_size);
    } else if is_live(s.blocks, ptr) {
        let i = index_of(s.blocks, ptr);
        if new_size > s.blocks[i].size {
            let freed = HeapState { blocks: mark(s.blocks, i, true), ..s };
            lemma_mark_wf(s.blocks, s.memory.len(), i, true);
            lemma_allocate_wf(freed, new_size);
        }
    }
}

/// A zeroed request keeps the state valid.
pub proof fn lemma_zero_allocate_wf(s: HeapState, count: nat, element_size: nat)
    requires
        state_wf(s),
    ensures
        state_wf(zero_allocate_state(s, count, element_size)),
{
    if count * element_size <= usize::MAX {
        lemma_allocate_wf(s, count * element_size);
    }
}

} // verus!
