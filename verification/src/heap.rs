//! The heap itself: the headers, stored under their addresses, and the bytes
//! of the region, with the operations that keep the block list consistent.

use crate::header::{align_up, AllocError, Allocation, FreeResult, MAGIC, METADATA_SIZE};
use crate::model::{
    block_end, can_grow, can_link, can_split, coalesce, copy_bytes, found_result,
    grow_if_allowed, header_at, header_index, header_of, in_payload, index_of, is_header,
    lemma_block_within, lemma_chain_ordered, lemma_coalesce_wf, lemma_grow_valid, lemma_index_of,
    lemma_link_wf, lemma_mark_wf, lemma_split_wf, link, list_end, locate, mark, payload,
    shortfall, split, state_valid, state_wf, visit, zero_bytes, Block, HeapState,
};
use std::collections::HashMap;
use vstd::prelude::*;

verus! {

/// A heap: one region of bytes that only grows, tiled by blocks.
///
/// Addresses are offsets into the region. The headers are kept under their
/// addresses beside the bytes, so that no write to a payload can reach one.
/// Between calls every block of the region is on the list. Growth adds one
/// block behind the list, which waits there until it is linked.
pub struct SmallocAllocator {
    /// The heap origin: the address of the first header, once there is one.
    heap_base: Option<usize>,
    /// The address of the last header of the list.
    tail: Option<usize>,
    /// Every header of the list, under its address.
    headers: HashMap<usize, Allocation>,
    /// The bytes of the region.
    memory: Vec<u8>,
    /// The size beyond which the region does not grow.
    limit: usize,
    /// The address and the header of the block that the region grew by last,
    /// until it is linked.
    pending: Option<(usize, Allocation)>,
    /// The addresses of the headers in list order.
    order: Ghost<Seq<usize>>,
}

/// A copy of the block list of a heap, to go back to.
pub(crate) struct ListCopy {
    heap_base: Option<usize>,
    tail: Option<usize>,
    headers: HashMap<usize, Allocation>,
    order: Ghost<Seq<usize>>,
}

impl ListCopy {
    /// Whether this is a copy of the block list of the state `s`.
    pub(crate) closed spec fn of(&self, s: HeapState) -> bool {
        &&& linked(self.order@, self.headers@)
        &&& blocks_of(self.order@, self.headers@) == s.blocks
        &&& self.heap_base == first_of(self.order@)
        &&& self.tail == last_of(self.order@)
    }
}

/// The first address of the sequence, if it has one.
spec fn first_of(order: Seq<usize>) -> Option<usize> {
    if order.len() > 0 {
        Some(order[0])
    } else {
        None
    }
}

/// The last address of the sequence, if it has one.
spec fn last_of(order: Seq<usize>) -> Option<usize> {
    if order.len() > 0 {
        Some(order.last())
    } else {
        None
    }
}

impl View for SmallocAllocator {
    type V = HeapState;

    closed spec fn view(&self) -> HeapState {
        HeapState {
            blocks: blocks_of(self.order@, self.headers@),
            memory: self.memory@,
            limit: self.limit as nat,
            pending: match self.pending {
                Some((addr, header)) => Some(
                    Block {
                        addr: addr as nat,
                        size: header.size as nat,
                        is_free: header.is_freed,
                    },
                ),
                None => None,
            },
        }
    }
}

/// The block list that the headers stored under the addresses `order` stand
/// for.
spec fn blocks_of(order: Seq<usize>, headers: Map<usize, Allocation>) -> Seq<Block> {
    Seq::new(
        order.len(),
        |i: int|
            Block {
                addr: order[i] as nat,
                size: headers[order[i]].size as nat,
                is_free: headers[order[i]].is_freed,
            },
    )
}

/// The stored headers are exactly those at the addresses `order`, each
/// carries the sentinel and the address of its successor, and the last one
/// has no successor.
spec fn linked(order: Seq<usize>, headers: Map<usize, Allocation>) -> bool {
    &&& forall|i: int|
        0 <= i < order.len() ==> headers.contains_key(#[trigger] order[i])
            && headers[order[i]].magic == MAGIC
    &&& forall|a: usize| #[trigger] headers.contains_key(a) ==> order.contains(a)
    &&& forall|i: int, j: int|
        0 <= i && j == i + 1 && j < order.len() ==> headers[#[trigger] order[i]].next_block
            == Some(#[trigger] order[j])
    &&& order.len() > 0 ==> headers[order.last()].next_block.is_none()
}

/// The addresses increase along the sequence.
spec fn increasing(order: Seq<usize>) -> bool {
    forall|a: int, b: int|
        0 <= a < b < order.len() ==> (#[trigger] order[a]) < (#[trigger] order[b])
}

/// A list stays linked, and stands for the marked block list, when the header
/// at position `i` is marked free or in use.
proof fn lemma_marked(
    order: Seq<usize>,
    headers: Map<usize, Allocation>,
    i: int,
    marked: Allocation,
)
    requires
        linked(order, headers),
        increasing(order),
        0 <= i < order.len(),
        marked.size == headers[order[i]].size,
        marked.magic == MAGIC,
        marked.next_block == headers[order[i]].next_block,
    ensures
        linked(order, headers.insert(order[i], marked)),
        blocks_of(order, headers.insert(order[i], marked)) == mark(
            blocks_of(order, headers),
            i,
            marked.is_freed,
        ),
{
    let headers2 = headers.insert(order[i], marked);
    assert forall|a: usize| #[trigger] headers2.contains_key(a) implies order.contains(a) by {
        if a != order[i] {
            assert(headers.contains_key(a));
        }
    }
    assert forall|k: int, j: int| 0 <= k && j == k + 1 && j < order.len() implies headers2[
    #[trigger] order[k]].next_block == Some(#[trigger] order[j]) by {
        assert(headers[order[k]].next_block == Some(order[j]));
    }
    assert(blocks_of(order, headers2) =~= mark(blocks_of(order, headers), i, marked.is_freed));
}

/// A list stays linked, and stands for the block list with one block more,
/// when a header is stored behind the last one and linked to it.
proof fn lemma_appended(
    order: Seq<usize>,
    headers: Map<usize, Allocation>,
    addr: usize,
    fresh: Allocation,
)
    requires
        linked(order, headers),
        increasing(order),
        forall|k: int| 0 <= k < order.len() ==> #[trigger] order[k] < addr,
        fresh.magic == MAGIC,
        fresh.next_block.is_none(),
    ensures
        ({
            let stored = if order.len() > 0 {
                headers.insert(
                    order.last(),
                    Allocation { next_block: Some(addr), ..headers[order.last()] },
                )
            } else {
                headers
            };
            &&& linked(order.push(addr), stored.insert(addr, fresh))
            &&& blocks_of(order.push(addr), stored.insert(addr, fresh)) == blocks_of(
                order,
                headers,
            ).push(
                Block { addr: addr as nat, size: fresh.size as nat, is_free: fresh.is_freed },
            )
        }),
{
    let n = order.len() as int;
    let stored = if n > 0 {
        headers.insert(order.last(), Allocation { next_block: Some(addr), ..headers[order.last()] })
    } else {
        headers
    };
    let order2 = order.push(addr);
    let headers2 = stored.insert(addr, fresh);
    assert forall|k: int| 0 <= k < n + 1 implies headers2.contains_key(#[trigger] order2[k])
        && headers2[order2[k]].magic == MAGIC by {
        if k < n {
            assert(order2[k] == order[k]);
            assert(headers.contains_key(order[k]));
        }
    }
    assert forall|a: usize| #[trigger] headers2.contains_key(a) implies order2.contains(a) by {
        if a == addr {
            assert(order2[n] == a);
        } else {
            assert(headers.contains_key(a));
            assert(order.contains(a));
            let k = choose|k: int| 0 <= k < n && order[k] == a;
            assert(order2[k] == a);
        }
    }
    assert forall|k: int, j: int| 0 <= k && j == k + 1 && j < n + 1 implies headers2[
    #[trigger] order2[k]].next_block == Some(#[trigger] order2[j]) by {
        assert(order2[k] == order[k]);
        if j < n {
            assert(order2[j] == order[j]);
            assert(headers[order[k]].next_block == Some(order[j]));
            assert(order[k] < order[n - 1]);
        }
    }
    assert(blocks_of(order2, headers2) =~= blocks_of(order, headers).push(
        Block { addr: addr as nat, size: fresh.size as nat, is_free: fresh.is_freed },
    )) by {
        assert forall|k: int| 0 <= k < n implies blocks_of(order2, headers2)[k] == blocks_of(
            order,
            headers,
        )[k] by {
            assert(order2[k] == order[k]);
            if k < n - 1 {
                assert(order[k] < order[n - 1]);
            }
        }
    }
}

/// A list stays linked, and stands for the merged block list, when the header
/// at position `i` absorbs its successor.
proof fn lemma_absorb(
    order: Seq<usize>,
    headers: Map<usize, Allocation>,
    i: int,
    merged: Allocation,
)
    requires
        linked(order, headers),
        increasing(order),
        0 <= i,
        i + 1 < order.len(),
        merged.size == headers[order[i]].size + METADATA_SIZE + headers[order[i + 1]].size,
        merged.is_freed == headers[order[i]].is_freed,
        merged.magic == MAGIC,
        merged.next_block == headers[order[i + 1]].next_block,
    ensures
        linked(order.remove(i + 1), headers.remove(order[i + 1]).insert(order[i], merged)),
        blocks_of(order.remove(i + 1), headers.remove(order[i + 1]).insert(order[i], merged))
            == coalesce(blocks_of(order, headers), i),
{
    let n = order.len() as int;
    let order2 = order.remove(i + 1);
    let headers2 = headers.remove(order[i + 1]).insert(order[i], merged);
    assert(order2.len() == n - 1);
    assert forall|k: int| 0 <= k < n - 1 implies #[trigger] order2[k] == (if k <= i {
        order[k]
    } else {
        order[k + 1]
    }) by {}
    assert forall|k: int| 0 <= k < n && k != i + 1 implies #[trigger] order[k] != order[i + 1] by {
        if k < i + 1 {
            assert(order[k] < order[i + 1]);
        } else {
            assert(order[i + 1] < order[k]);
        }
    }
    assert forall|k: int| 0 <= k < n - 1 implies headers2.contains_key(#[trigger] order2[k])
        && headers2[order2[k]].magic == MAGIC by {
        let src = if k <= i { k } else { k + 1 };
        assert(order2[k] == order[src]);
        assert(headers.contains_key(order[src]));
    }
    assert forall|a: usize| #[trigger] headers2.contains_key(a) implies order2.contains(a) by {
        assert(headers.contains_key(a));
        assert(order.contains(a));
        let k = choose|k: int| 0 <= k < n && order[k] == a;
        if k <= i {
            assert(order2[k] == a);
        } else {
            assert(order2[k - 1] == a);
        }
    }
    assert forall|k: int, j: int| 0 <= k && j == k + 1 && j < n - 1 implies headers2[
    #[trigger] order2[k]].next_block == Some(#[trigger] order2[j]) by {
        if j <= i {
            assert(order2[k] == order[k]);
            assert(order2[j] == order[j]);
            assert(headers[order[k]].next_block == Some(order[j]));
            if j == i {
                assert(order[k] < order[i]);
            }
        } else if k == i {
            assert(order2[j] == order[i + 2]);
            assert(headers[order[i + 1]].next_block == Some(order[i + 2]));
        } else {
            assert(order2[k] == order[k + 1]);
            assert(order2[j] == order[j + 1]);
            assert(headers[order[k + 1]].next_block == Some(order[j + 1]));
            assert(order[i] < order[k + 1]);
        }
    }
    if i + 2 < n {
        assert(order2.last() == order.last());
        assert(order[i] < order[n - 1]);
    } else {
        assert(order2.last() == order[i]);
    }
    let blocks = blocks_of(order, headers);
    assert forall|k: int| 0 <= k < n - 1 implies blocks_of(order2, headers2)[k] == coalesce(
        blocks,
        i,
    )[k] by {
        let src = if k <= i { k } else { k + 1 };
        assert(order2[k] == order[src]);
        if k < i {
            assert(order[k] < order[i]);
        } else if k > i {
            assert(order[i] < order[k + 1]);
        }
    }
    assert(blocks_of(order2, headers2) =~= coalesce(blocks, i));
}

/// A list stays linked, and stands for the split block list, when the header
/// at position `i` is cut down to `needed` bytes and a header for the rest is
/// stored behind its payload.
proof fn lemma_cut(
    order: Seq<usize>,
    headers: Map<usize, Allocation>,
    i: int,
    needed: usize,
    head: Allocation,
    rest: Allocation,
    rest_addr: usize,
)
    requires
        linked(order, headers),
        increasing(order),
        0 <= i < order.len(),
        headers[order[i]].size > needed + METADATA_SIZE,
        rest_addr == order[i] + METADATA_SIZE + needed,
        i + 1 < order.len() ==> rest_addr < order[i + 1],
        head.size == needed,
        head.is_freed == headers[order[i]].is_freed,
        head.magic == MAGIC,
        head.next_block == Some(rest_addr),
        rest.size == headers[order[i]].size - needed - METADATA_SIZE,
        rest.is_freed,
        rest.magic == MAGIC,
        rest.next_block == headers[order[i]].next_block,
    ensures
        linked(
            order.insert(i + 1, rest_addr),
            headers.insert(order[i], head).insert(rest_addr, rest),
        ),
        blocks_of(
            order.insert(i + 1, rest_addr),
            headers.insert(order[i], head).insert(rest_addr, rest),
        ) == split(blocks_of(order, headers), i, needed as nat),
{
    let n = order.len() as int;
    let order2 = order.insert(i + 1, rest_addr);
    let headers2 = headers.insert(order[i], head).insert(rest_addr, rest);
    assert(order2.len() == n + 1);
    assert forall|k: int| 0 <= k < n + 1 implies #[trigger] order2[k] == (if k <= i {
        order[k]
    } else if k == i + 1 {
        rest_addr
    } else {
        order[k - 1]
    }) by {}
    assert forall|k: int| 0 <= k < n implies #[trigger] order[k] != rest_addr && (k != i
        ==> order[k] != order[i]) by {
        if k < i {
            assert(order[k] < order[i]);
        } else if k > i {
            assert(order[i] < order[k]);
            if k > i + 1 {
                assert(order[i + 1] < order[k]);
            }
        }
    }
    assert forall|k: int| 0 <= k < n + 1 implies headers2.contains_key(#[trigger] order2[k])
        && headers2[order2[k]].magic == MAGIC by {
        if k != i + 1 {
            let src = if k <= i { k } else { k - 1 };
            assert(order2[k] == order[src]);
            assert(headers.contains_key(order[src]));
        }
    }
    assert forall|a: usize| #[trigger] headers2.contains_key(a) implies order2.contains(a) by {
        if a == rest_addr {
            assert(order2[i + 1] == a);
        } else if a == order[i] {
            assert(order2[i] == a);
        } else {
            assert(headers.contains_key(a));
            assert(order.contains(a));
            let k = choose|k: int| 0 <= k < n && order[k] == a;
            if k <= i {
                assert(order2[k] == a);
            } else {
                assert(order2[k + 1] == a);
            }
        }
    }
    assert forall|k: int, j: int| 0 <= k && j == k + 1 && j < n + 1 implies headers2[
    #[trigger] order2[k]].next_block == Some(#[trigger] order2[j]) by {
        if j <= i {
            assert(order2[k] == order[k]);
            assert(order2[j] == order[j]);
            assert(headers[order[k]].next_block == Some(order[j]));
        } else if k == i {
        } else if k == i + 1 {
            assert(order2[j] == order[i + 1]);
            assert(headers[order[i]].next_block == Some(order[i + 1]));
        } else {
            assert(order2[k] == order[k - 1]);
            assert(order2[j] == order[j - 1]);
            assert(headers[order[k - 1]].next_block == Some(order[j - 1]));
        }
    }
    if i + 1 < n {
        assert(order2.last() == order.last());
    } else {
        assert(order2.last() == rest_addr);
    }
    let blocks = blocks_of(order, headers);
    assert forall|k: int| 0 <= k < n + 1 implies blocks_of(order2, headers2)[k] == split(
        blocks,
        i,
        needed as nat,
    )[k] by {
        if k != i + 1 {
            let src = if k <= i { k } else { k - 1 };
            assert(order2[k] == order[src]);
        }
    }
    assert(blocks_of(order2, headers2) =~= split(blocks, i, needed as nat));
}

impl SmallocAllocator {
    /// The stored headers are exactly those of the list: each carries the
    /// sentinel and the address of its successor, and the origin and the tail
    /// are the ends of the list. A block that is not linked yet carries the
    /// sentinel and has no successor.
    pub closed spec fn inv(&self) -> bool {
        &&& linked(self.order@, self.headers@)
        &&& self.heap_base == first_of(self.order@)
        &&& self.tail == last_of(self.order@)
        &&& self.pending is Some ==> self.pending->Some_0.1.magic == MAGIC
            && self.pending->Some_0.1.next_block.is_none()
    }

    /// The validity of a heap between growth and linking: its headers are
    /// those of its block list, and its state is valid. One block may wait
    /// behind the list to be linked.
    pub open spec fn valid(&self) -> bool {
        self.inv() && state_valid(self@)
    }

    /// The validity of a heap between calls: it is valid, and every block of
    /// its region is on the list.
    pub open spec fn wf(&self) -> bool {
        self.inv() && state_wf(self@)
    }

    /// An empty heap whose region may grow to `limit` bytes.
    pub fn new(limit: usize) -> (heap: SmallocAllocator)
        ensures
            heap.wf(),
            heap@ == (HeapState {
                blocks: Seq::empty(),
                memory: Seq::empty(),
                limit: limit as nat,
                pending: None,
            }),
    {
        let heap = SmallocAllocator {
            heap_base: None,
            tail: None,
            headers: HashMap::new(),
            memory: Vec::new(),
            limit,
            pending: None,
            order: Ghost(Seq::empty()),
        };
        assert(heap@.blocks =~= Seq::empty());
        assert(heap@.memory =~= Seq::empty());
        heap
    }

    /// The heap origin: the address of the first header, or `None` while
    /// nothing was ever allocated.
    pub fn heap_base(&self) -> (base: Option<usize>)
        requires
            self.valid(),
        ensures
            base == (if self@.blocks.len() > 0 {
                Some(0usize)
            } else {
                None
            }),
    {
        self.heap_base
    }

    /// The size of the region in bytes: the first address behind it.
    pub fn region_size(&self) -> (size: usize)
        ensures
            size == self@.memory.len(),
    {
        self.memory.len()
    }

    /// The size beyond which the region does not grow.
    pub fn limit(&self) -> (limit: usize)
        ensures
            limit == self@.limit,
    {
        self.limit
    }

    /// By how many bytes the limit is short of what a new block for a
    /// request of `requested_size` bytes needs: nothing where the region may
    /// grow by it. Returns `None` where the size of the region with that
    /// block does not fit the machine word.
    pub fn shortfall(&self, requested_size: usize) -> (missing: Option<usize>)
        requires
            self.valid(),
        ensures
            missing == shortfall(self@, requested_size as nat),
    {
        let size: usize = match align_up(requested_size) {
            Some(size) => size,
            None => {
                return None;
            },
        };
        let brk: usize = self.memory.len();
        if size > usize::MAX - METADATA_SIZE || size + METADATA_SIZE > usize::MAX - brk {
            return None;
        }
        let needed: usize = brk + METADATA_SIZE + size;
        if needed <= self.limit {
            Some(0)
        } else {
            Some(needed - self.limit)
        }
    }

    /// Raises the limit of the region by `by` bytes. Returns whether it did:
    /// nothing changes where the raised limit does not fit the machine word.
    pub fn raise_limit(&mut self, by: usize) -> (done: bool)
        requires
            old(self).valid(),
        ensures
            final(self).valid(),
            done == (old(self)@.limit + by <= usize::MAX),
            final(self)@ == (if done {
                HeapState { limit: (old(self)@.limit + by) as nat, ..old(self)@ }
            } else {
                old(self)@
            }),
    {
        if by > usize::MAX - self.limit {
            return false;
        }
        self.limit = self.limit + by;
        true
    }

    /// Links the block that the region grew by last: as the successor of the
    /// last header `last`, or, with no `last`, as the origin of an empty
    /// list. Returns whether it did: nothing changes unless a block waits at
    /// `block` and `last` names the end of the list.
    pub fn link_block(&mut self, last: Option<usize>, block: usize) -> (done: bool)
        requires
            old(self).valid(),
        ensures
            final(self).valid(),
            done == can_link(old(self)@, last, block as nat),
            final(self)@ == (if done {
                link(old(self)@)
            } else {
                old(self)@
            }),
    {
        let (addr, fresh) = match self.pending {
            Some(waiting) => waiting,
            None => {
                return false;
            },
        };
        let at_end = match (last, self.tail) {
            (Some(named), Some(tail)) => named == tail,
            (None, None) => true,
            _ => false,
        };
        if addr != block || !at_end {
            return false;
        }
        let ghost before = *self;
        let ghost n = self.order@.len() as int;
        proof {
            self.lemma_order_increasing();
            lemma_link_wf(self@);
            assert forall|k: int| 0 <= k < n implies #[trigger] self.order@[k] < addr by {
                assert(block_end(self@.blocks[n - 1]) == addr);
                if k < n - 1 {
                    assert(self.order@[k] < self.order@[n - 1]);
                }
            }
        }
        match last {
            Some(named) => {
                let mut last_header = self.header(named);
                last_header.next_block = Some(addr);
                self.headers.insert(named, last_header);
            },
            None => {
                self.heap_base = Some(addr);
            },
        }
        self.headers.insert(addr, fresh);
        self.tail = Some(addr);
        self.pending = None;
        proof {
            self.order = Ghost(self.order@.push(addr));
            lemma_appended(before.order@, before.headers@, addr, fresh);
        }
        true
    }

    /// A copy of the block list, to go back to.
    pub(crate) fn save_list(&self) -> (saved: ListCopy)
        requires
            self.wf(),
        ensures
            saved.of(self@),
    {
        ListCopy {
            heap_base: self.heap_base,
            tail: self.tail,
            headers: self.headers.clone(),
            order: Ghost(self.order@),
        }
    }

    /// Goes back to the block list `saved`, a copy of the list of the state
    /// `s`, in a heap whose bytes and limit are those of `s`.
    pub(crate) fn restore_list(&mut self, saved: ListCopy, Ghost(s): Ghost<HeapState>)
        requires
            old(self).wf(),
            saved.of(s),
            state_wf(s),
            s.memory == old(self)@.memory,
            s.limit == old(self)@.limit,
        ensures
            final(self).wf(),
            final(self)@ == s,
    {
        let ListCopy { heap_base, tail, headers, order } = saved;
        self.heap_base = heap_base;
        self.tail = tail;
        self.headers = headers;
        proof {
            self.order = order;
        }
    }

    /// The addresses of the headers increase along the list.
    proof fn lemma_order_increasing(&self)
        requires
            self.valid(),
        ensures
            increasing(self.order@),
    {
        assert forall|a: int, b: int| 0 <= a < b < self.order@.len() implies (
        #[trigger] self.order@[a]) < (#[trigger] self.order@[b]) by {
            lemma_chain_ordered(self@.blocks, list_end(self@), a, b);
            assert(self@.blocks[a].addr == self.order@[a]);
            assert(self@.blocks[b].addr == self.order@[b]);
        }
    }

    /// The header stored under `addr`.
    fn header(&self, addr: usize) -> (h: Allocation)
        requires
            self.headers@.contains_key(addr),
        ensures
            h == self.headers@[addr],
    {
        let found = self.headers.get(&addr);
        *found.unwrap()
    }

    /// Where a header is stored under `addr`, it is the header of one block
    /// of the list.
    proof fn lemma_stored(&self, addr: usize) -> (i: int)
        requires
            self.valid(),
            self.headers@.contains_key(addr),
        ensures
            0 <= i < self.order@.len(),
            self.order@[i] == addr,
            is_header(self@.blocks, addr as nat),
            header_index(self@.blocks, addr as nat) == i,
            self.headers@[addr] == header_of(self@.blocks, i),
            block_end(self@.blocks[i]) <= self@.memory.len(),
    {
        assert(self.order@.contains(addr));
        let i = choose|i: int| 0 <= i < self.order@.len() && self.order@[i] == addr;
        assert(payload(self@.blocks[i]) == addr + METADATA_SIZE);
        lemma_index_of(self@.blocks, list_end(self@), i);
        lemma_block_within(self@.blocks, list_end(self@), i);
        if i + 1 < self.order@.len() {
            assert(self.headers@[self.order@[i]].next_block == Some(self.order@[i + 1]));
        }
        i
    }

    /// Where no header is stored under `addr`, no block of the list has its
    /// header there.
    proof fn lemma_not_stored(&self, addr: usize)
        requires
            self.valid(),
            !self.headers@.contains_key(addr),
        ensures
            !is_header(self@.blocks, addr as nat),
    {
        if is_header(self@.blocks, addr as nat) {
            let i = header_index(self@.blocks, addr as nat);
            assert(self.order@[i] == addr);
        }
    }

    /// No block of the list has its header at or behind the end of the list.
    proof fn lemma_not_header(&self, addr: usize)
        requires
            self.valid(),
            addr >= list_end(self@),
        ensures
            !is_header(self@.blocks, addr as nat),
    {
        if is_header(self@.blocks, addr as nat) {
            let i = header_index(self@.blocks, addr as nat);
            lemma_block_within(self@.blocks, list_end(self@), i);
        }
    }

    /// Marks block `i`, whose header is at `addr`, free or in use.
    fn set_freed(&mut self, addr: usize, is_freed: bool, Ghost(i): Ghost<int>)
        requires
            old(self).wf(),
            0 <= i < old(self).order@.len(),
            old(self).order@[i] == addr,
        ensures
            final(self).wf(),
            final(self)@ == (HeapState {
                blocks: mark(old(self)@.blocks, i, is_freed),
                ..old(self)@
            }),
            final(self).order@ == old(self).order@,
    {
        let ghost before = *self;
        proof {
            self.lemma_order_increasing();
            lemma_mark_wf(self@.blocks, self@.memory.len(), i, is_freed);
        }
        let mut hdr = self.header(addr);
        hdr.is_freed = is_freed;
        self.headers.insert(addr, hdr);
        proof {
            lemma_marked(before.order@, before.headers@, i, hdr);
        }
    }

    /// Lets block `i`, whose header is at `addr`, absorb its successor: the
    /// successor's header leaves the list, and block `i` grows by that header
    /// and its payload.
    fn absorb_next(&mut self, addr: usize, Ghost(i): Ghost<int>)
        requires
            old(self).wf(),
            0 <= i,
            i + 1 < old(self).order@.len(),
            old(self).order@[i] == addr,
        ensures
            final(self).wf(),
            final(self)@ == (HeapState { blocks: coalesce(old(self)@.blocks, i), ..old(self)@ }),
            final(self).order@ == old(self).order@.remove(i + 1),
    {
        let ghost before = *self;
        let ghost n = self.order@.len() as int;
        proof {
            self.lemma_order_increasing();
            lemma_coalesce_wf(self@.blocks, self@.memory.len(), i);
            lemma_block_within(self@.blocks, self@.memory.len(), i + 1);
            assert(self.headers@[self.order@[i]].next_block == Some(self.order@[i + 1]));
            assert(block_end(self@.blocks[i]) == self@.blocks[i + 1].addr);
        }
        let mut hdr = self.header(addr);
        let next_addr: usize = hdr.next_block.unwrap();
        let next = self.header(next_addr);
        hdr.next_block = next.next_block;
        hdr.size = hdr.size + next.size + METADATA_SIZE;
        self.headers.remove(&next_addr);
        self.headers.insert(addr, hdr);
        if next.next_block.is_none() {
            self.tail = Some(addr);
        }
        proof {
            self.order = Ghost(self.order@.remove(i + 1));
            lemma_absorb(before.order@, before.headers@, i, hdr);
            if i + 2 < n {
                assert(before.headers@[before.order@[i + 1]].next_block == Some(
                    before.order@[i + 2],
                ));
                assert(self.order@.last() == before.order@.last());
            } else {
                assert(self.order@.last() == addr);
            }
            assert(self.order@[0] == before.order@[0]);
        }
    }

    /// Marks the block whose header is at `addr` free or in use.
    pub(crate) fn mark_block(&mut self, addr: usize, is_freed: bool)
        requires
            old(self).wf(),
            is_header(old(self)@.blocks, addr as nat),
        ensures
            final(self).wf(),
            final(self)@ == (HeapState {
                blocks: mark(
                    old(self)@.blocks,
                    header_index(old(self)@.blocks, addr as nat),
                    is_freed,
                ),
                ..old(self)@
            }),
    {
        let ghost i = header_index(self@.blocks, addr as nat);
        assert(self.order@[i] == addr);
        self.set_freed(addr, is_freed, Ghost(i));
    }

    /// Lets the block whose header is at `addr` absorb its successor.
    pub(crate) fn merge_next(&mut self, addr: usize)
        requires
            old(self).wf(),
            is_header(old(self)@.blocks, addr as nat),
            header_index(old(self)@.blocks, addr as nat) + 1 < old(self)@.blocks.len(),
        ensures
            final(self).wf(),
            final(self)@ == (HeapState {
                blocks: coalesce(old(self)@.blocks, header_index(old(self)@.blocks, addr as nat)),
                ..old(self)@
            }),
    {
        let ghost i = header_index(self@.blocks, addr as nat);
        assert(self.order@[i] == addr);
        self.absorb_next(addr, Ghost(i));
    }

    /// Copies `len` bytes of the region from `src` on to `dst` on.
    pub(crate) fn copy_payload(&mut self, src: usize, dst: usize, len: usize)
        requires
            old(self).wf(),
            src + len <= old(self)@.memory.len(),
            dst + len <= old(self)@.memory.len(),
        ensures
            final(self).wf(),
            final(self)@ == (HeapState {
                memory: copy_bytes(old(self)@.memory, src as nat, dst as nat, len as nat),
                ..old(self)@
            }),
    {
        copy_within(&mut self.memory, src, dst, len);
    }

    /// Sets `len` bytes of the region from `start` on to zero.
    pub(crate) fn zero_payload(&mut self, start: usize, len: usize)
        requires
            old(self).wf(),
            start + len <= old(self)@.memory.len(),
        ensures
            final(self).wf(),
            final(self)@ == (HeapState {
                memory: zero_bytes(old(self)@.memory, start as nat, len as nat),
                ..old(self)@
            }),
    {
        fill_zero(&mut self.memory, start, len);
    }

    /// Reads the byte at `offset` in the payload that begins at `ptr`. Fails
    /// unless `ptr` is the payload address of a block in use and `offset`
    /// lies within its payload.
    pub fn load(&self, ptr: usize, offset: usize) -> (result: Result<u8, AllocError>)
        requires
            self.wf(),
        ensures
            result == (if in_payload(self@.blocks, ptr as nat, offset as nat) {
                Ok(self@.memory[ptr + offset])
            } else {
                Err(AllocError::InvalidPointer)
            }),
    {
        match get_metadata_from_alloc_ptr(self, ptr) {
            Some(hdr) => {
                if hdr.is_freed || offset >= hdr.size {
                    Err(AllocError::InvalidPointer)
                } else {
                    proof {
                        let i = index_of(self@.blocks, ptr as nat);
                        lemma_block_within(self@.blocks, self@.memory.len(), i);
                    }
                    Ok(self.memory[ptr + offset])
                }
            },
            None => Err(AllocError::InvalidPointer),
        }
    }

    /// Writes `value` to the byte at `offset` in the payload that begins at
    /// `ptr`. Fails, and changes nothing, unless `ptr` is the payload address
    /// of a block in use and `offset` lies within its payload.
    pub fn store(&mut self, ptr: usize, offset: usize, value: u8) -> (result: Result<
        (),
        AllocError,
    >)
        requires
            old(self).wf(),
        ensures
            final(self).wf(),
            result == (if in_payload(old(self)@.blocks, ptr as nat, offset as nat) {
                Ok(())
            } else {
                Err(AllocError::InvalidPointer)
            }),
            final(self)@ == (if in_payload(old(self)@.blocks, ptr as nat, offset as nat) {
                HeapState { memory: old(self)@.memory.update(ptr + offset, value), ..old(self)@ }
            } else {
                old(self)@
            }),
    {
        match get_metadata_from_alloc_ptr(self, ptr) {
            Some(hdr) => {
                if hdr.is_freed || offset >= hdr.size {
                    Err(AllocError::InvalidPointer)
                } else {
                    proof {
                        let i = index_of(self@.blocks, ptr as nat);
                        lemma_block_within(self@.blocks, self@.memory.len(), i);
                    }
                    self.memory[ptr + offset] = value;
                    assert(self@.blocks =~= old(self)@.blocks);
                    Ok(())
                }
            },
            None => Err(AllocError::InvalidPointer),
        }
    }
}

/// Appends `count` zero bytes to `memory`.
fn extend_zeroed(memory: &mut Vec<u8>, count: usize)
    ensures
        final(memory)@ == old(memory)@ + Seq::new(count as nat, |k: int| 0u8),
{
    let mut done: usize = 0;
    while done < count
        invariant
            done <= count,
            memory@ == old(memory)@ + Seq::new(done as nat, |k: int| 0u8),
        decreases count - done,
    {
        memory.push(0u8);
        done = done + 1;
        assert(memory@ =~= old(memory)@ + Seq::new(done as nat, |k: int| 0u8));
    }
}

/// Copies `len` bytes from `src` on to `dst` on. The lower range is walked
/// upwards and the higher one downwards, so that every byte is read before
/// it is overwritten.
fn copy_within(memory: &mut Vec<u8>, src: usize, dst: usize, len: usize)
    requires
        src + len <= old(memory).len(),
        dst + len <= old(memory).len(),
    ensures
        final(memory)@ == copy_bytes(old(memory)@, src as nat, dst as nat, len as nat),
{
    if dst <= src {
        let mut k: usize = 0;
        while k < len
            invariant
                k <= len,
                dst <= src,
                memory.len() == old(memory).len(),
                src + len <= memory.len(),
                forall|x: int|
                    0 <= x < memory.len() ==> #[trigger] memory@[x] == (if dst <= x < dst + k {
                        old(memory)@[x - dst + src]
                    } else {
                        old(memory)@[x]
                    }),
            decreases len - k,
        {
            let byte: u8 = memory[src + k];
            memory.set(dst + k, byte);
            k = k + 1;
        }
    } else {
        let mut k: usize = len;
        while k > 0
            invariant
                k <= len,
                dst > src,
                memory.len() == old(memory).len(),
                dst + len <= memory.len(),
                forall|x: int|
                    0 <= x < memory.len() ==> #[trigger] memory@[x] == (if dst + k <= x < dst
                        + len {
                        old(memory)@[x - dst + src]
                    } else {
                        old(memory)@[x]
                    }),
            decreases k,
        {
            k = k - 1;
            let byte: u8 = memory[src + k];
            memory.set(dst + k, byte);
        }
    }
    assert(memory@ =~= copy_bytes(old(memory)@, src as nat, dst as nat, len as nat));
}

/// Sets `len` bytes from `start` on to zero.
fn fill_zero(memory: &mut Vec<u8>, start: usize, len: usize)
    requires
        start + len <= old(memory).len(),
    ensures
        final(memory)@ == zero_bytes(old(memory)@, start as nat, len as nat),
{
    let mut k: usize = 0;
    while k < len
        invariant
            k <= len,
            memory.len() == old(memory).len(),
            start + len <= memory.len(),
            forall|x: int|
                0 <= x < memory.len() ==> #[trigger] memory@[x] == (if start <= x < start + k {
                    0u8
                } else {
                    old(memory)@[x]
                }),
        decreases len - k,
    {
        memory.set(start + k, 0u8);
        k = k + 1;
    }
    assert(memory@ =~= zero_bytes(old(memory)@, start as nat, len as nat));
}

/// Grows the region by a header and `size` bytes, and returns the address of
/// the header of the new block, which is the former end of the region.
///
/// The new block is in use, has no successor and carries the sentinel. It is
/// not linked: the list and every header of it are as they were, and the
/// block waits behind the list until `link_block` makes it the last block.
/// Returns `None`, with the heap unchanged, where the limit of the region
/// does not allow the growth.
pub fn request_space(heap: &mut SmallocAllocator, size: usize) -> (result: Option<usize>)
    requires
        old(heap).wf(),
    ensures
        final(heap).valid(),
        final(heap)@ == grow_if_allowed(old(heap)@, size as nat),
        result == (if can_grow(old(heap)@, size as nat) {
            Some(old(heap)@.memory.len() as usize)
        } else {
            None
        }),
        final(heap)@.blocks == old(heap)@.blocks,
        result is Some ==> header_at(final(heap)@, (result->Some_0 + METADATA_SIZE) as nat) == Some(
            Allocation { size, is_freed: false, next_block: None, magic: MAGIC },
        ),
{
    let brk: usize = heap.memory.len();
    let room: usize = heap.limit - brk;
    if room < METADATA_SIZE || room - METADATA_SIZE < size {
        return None;
    }
    proof {
        lemma_grow_valid(heap@, size as nat);
        if heap@.blocks.len() > 0 {
            heap.lemma_not_header(brk);
        }
    }
    extend_zeroed(&mut heap.memory, METADATA_SIZE + size);
    let fresh = Allocation { size, is_freed: false, next_block: None, magic: MAGIC };
    heap.pending = Some((brk, fresh));
    Some(brk)
}

/// Scans the list from the heap origin for a free block of `size` bytes.
///
/// Every block the scan visits first absorbs its successor if both are free.
/// The scan ends at the first block that then is free and holds `size` bytes,
/// or, where none does, at the last block of the list.
pub fn find_free(heap: &mut SmallocAllocator, size: usize) -> (result: FreeResult)
    requires
        old(heap).wf(),
        old(heap)@.blocks.len() > 0,
    ensures
        final(heap).wf(),
        final(heap)@ == (HeapState {
            blocks: locate(old(heap)@.blocks, 0, size as nat).blocks,
            ..old(heap)@
        }),
        result == found_result(locate(old(heap)@.blocks, 0, size as nat)),
{
    let mut cur: usize = heap.heap_base.unwrap();
    let ghost mut i: int = 0;
    loop
        invariant
            heap.wf(),
            0 <= i < heap.order@.len(),
            cur == heap.order@[i],
            heap@.memory == old(heap)@.memory,
            heap@.limit == old(heap)@.limit,
            heap@.pending == old(heap)@.pending,
            locate(heap@.blocks, i, size as nat) == locate(old(heap)@.blocks, 0, size as nat),
        decreases heap.order@.len() - i,
    {
        let ghost visited = heap@.blocks;
        let ghost n = heap.order@.len() as int;
        proof {
            if i + 1 < n {
                assert(heap.headers@[heap.order@[i]].next_block == Some(heap.order@[i + 1]));
            }
        }
        let mut hdr = heap.header(cur);
        if hdr.is_freed {
            match hdr.next_block {
                Some(next_addr) => {
                    let next = heap.header(next_addr);
                    if next.is_freed {
                        heap.absorb_next(cur, Ghost(i));
                        hdr = heap.header(cur);
                    }
                },
                None => {},
            }
        }
        proof {
            assert(heap@.blocks == visit(visited, i));
            if i + 1 < heap.order@.len() {
                assert(heap.headers@[heap.order@[i]].next_block == Some(heap.order@[i + 1]));
            }
        }
        if hdr.is_freed && hdr.size >= size {
            return FreeResult::Fit(cur);
        }
        match hdr.next_block {
            None => {
                return FreeResult::LastNonEmpty(cur);
            },
            Some(next_addr) => {
                cur = next_addr;
                proof {
                    i = i + 1;
                }
            },
        }
    }
}

/// Cuts the block whose header is at `addr` down to `requested_space` bytes
/// and makes a free block of what is left, linked in as its successor.
///
/// This is done only where the block holds more than `requested_space` bytes
/// and a header: the block left over then has at least one byte of payload.
/// Otherwise, and where no header is at `addr`, nothing changes. Returns
/// whether the block was cut.
pub fn split_block(heap: &mut SmallocAllocator, addr: usize, requested_space: usize) -> (done: bool)
    requires
        old(heap).wf(),
    ensures
        final(heap).wf(),
        done == (is_header(old(heap)@.blocks, addr as nat) && can_split(
            old(heap)@.blocks,
            header_index(old(heap)@.blocks, addr as nat),
            requested_space as nat,
        )),
        final(heap)@ == (if done {
            HeapState {
                blocks: split(
                    old(heap)@.blocks,
                    header_index(old(heap)@.blocks, addr as nat),
                    requested_space as nat,
                ),
                ..old(heap)@
            }
        } else {
            old(heap)@
        }),
{
    let ghost before = *heap;
    let mut hdr = match heap.headers.get(&addr) {
        None => {
            proof {
                heap.lemma_not_stored(addr);
            }
            return false;
        },
        Some(found) => *found,
    };
    let ghost i = heap.lemma_stored(addr);
    if hdr.size <= METADATA_SIZE || hdr.size - METADATA_SIZE <= requested_space {
        return false;
    }
    let ghost n = heap.order@.len() as int;
    proof {
        heap.lemma_order_increasing();
        lemma_split_wf(heap@.blocks, heap@.memory.len(), i, requested_space as nat);
        if i + 1 < n {
            assert(block_end(heap@.blocks[i]) == heap@.blocks[i + 1].addr);
        }
    }
    let rest_addr: usize = addr + METADATA_SIZE + requested_space;
    let rest = Allocation {
        size: hdr.size - requested_space - METADATA_SIZE,
        is_freed: true,
        next_block: hdr.next_block,
        magic: MAGIC,
    };
    if hdr.next_block.is_none() {
        heap.tail = Some(rest_addr);
    }
    hdr.size = requested_space;
    hdr.next_block = Some(rest_addr);
    heap.headers.insert(addr, hdr);
    heap.headers.insert(rest_addr, rest);
    proof {
        heap.order = Ghost(heap.order@.insert(i + 1, rest_addr));
        lemma_cut(before.order@, before.headers@, i, requested_space, hdr, rest, rest_addr);
        if i + 1 < n {
            assert(heap.order@.last() == before.order@.last());
        } else {
            assert(heap.order@.last() == rest_addr);
        }
        assert(heap.order@[0] == before.order@[0]);
    }
    true
}

/// Recovers the header of the block whose payload begins at `ptr`: the header
/// kept one header's size below `ptr`, if there is one and it carries the
/// sentinel, be it the header of a block of the list or of the block that is
/// not linked yet. Returns `None` for every other address.
pub fn get_metadata_from_alloc_ptr(heap: &SmallocAllocator, ptr: usize) -> (result: Option<
    Allocation,
>)
    requires
        heap.valid(),
    ensures
        result == header_at(heap@, ptr as nat),
{
    if ptr < METADATA_SIZE {
        return None;
    }
    let addr: usize = ptr - METADATA_SIZE;
    let found = match heap.headers.get(&addr) {
        Some(found) => {
            proof {
                heap.lemma_stored(addr);
            }
            *found
        },
        None => {
            proof {
                heap.lemma_not_stored(addr);
            }
            match heap.pending {
                Some((at, waiting)) => {
                    if at != addr {
                        return None;
                    }
                    waiting
                },
                None => {
                    return None;
                },
            }
        },
    };
    if found.magic != MAGIC {
        None
    } else {
        Some(found)
    }
}

} // verus!
