//! The block header, the constants of the layout and the size rounding rule.

use vstd::prelude::*;

verus! {

/// The sentinel written into every header when its block is created.
pub const MAGIC: u32 = 0xdeadbeef;

/// The number of bytes a header occupies in front of its payload.
pub const METADATA_SIZE: usize = 32;

/// The granularity to which requested sizes are rounded up.
pub const ALIGNMENT: usize = 8;

/// The null address: never the payload address of a block.
pub const NULL: usize = 0;

/// The header in front of every block, free or in use.
#[derive(Clone, Copy, Debug, PartialEq, Eq)]
pub struct Allocation {
    /// Usable bytes behind the header; the header itself is not counted.
    pub size: usize,
    /// Whether the block is available for reuse.
    pub is_freed: bool,
    /// Address of the next header in address order; `None` at the tail.
    pub next_block: Option<usize>,
    /// Equal to [`MAGIC`] in every header of the heap.
    pub magic: u32,
}

/// What a scan for a free block ends with; both variants carry the address of
/// a header.
#[derive(Clone, Copy, Debug, PartialEq, Eq)]
pub enum FreeResult {
    /// A free block whose payload is large enough.
    Fit(usize),
    /// No block fits; this is the last block of the list, free or not.
    LastNonEmpty(usize),
}

/// Why a call did not do what was asked.
#[derive(Clone, Copy, Debug, PartialEq, Eq)]
pub enum AllocError {
    /// The region cannot grow by the bytes that the request needs.
    OutOfMemory,
    /// The address is not the payload address of a block in use.
    InvalidPointer,
    /// The size of the request cannot be represented.
    SizeOverflow,
}

/// The least multiple of eight that is not below `size`.
pub open spec fn round_up(size: nat) -> nat {
    ((size + 7) / 8 * 8) as nat
}

/// `round_up(size)` is a multiple of eight, lies at or above `size`, and is
/// the least such number: it is at or below every multiple of eight `m` that
/// `size` does not exceed.
pub proof fn lemma_round_up(size: nat, m: nat)
    requires
        m % 8 == 0,
        size <= m,
    ensures
        round_up(size) % 8 == 0,
        size <= round_up(size) <= m,
{
}

/// Rounds `size` up to the allocation granularity, or reports that the rounded
/// size does not fit the machine word.
pub fn align_up(size: usize) -> (result: Option<usize>)
    ensures
        round_up(size as nat) <= usize::MAX ==> result == Some(round_up(size as nat) as usize),
        round_up(size as nat) > usize::MAX ==> result.is_none(),
{
    let rest: usize = size % ALIGNMENT;
    if rest == 0 {
        Some(size)
    } else if size <= usize::MAX - (ALIGNMENT - rest) {
        Some(size + (ALIGNMENT - rest))
    } else {
        None
    }
}

} // verus!
