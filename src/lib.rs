//! A line-marked bump-pointer heap in the style of Immix.
//!
//! Memory is handed out from fixed-size blocks. Each block is split into
//! lines with an in-band table of line marks; allocation bumps a cursor
//! downward through holes of free lines, skipping marked lines
//! conservatively. A heap owns a list of such blocks and routes
//! allocations by size class.
//!
//! Addresses inside a block are offsets from the block's base, and stand
//! for the addresses of a block whose base is aligned to its size: the
//! alignment of an allocation is the alignment of its offset. The heap
//! names an allocation by a handle: the id of its block and its offset
//! there.

pub mod allocator;
pub mod block;
pub mod bump_block;
pub mod constants;
pub mod heap;

pub use crate::allocator::{
    add_alignment_padding, AllocError, AllocHeader, AllocObject, AllocRaw, AllocTypeId, ArraySize,
    Mark, SizeClass,
};
pub use crate::block::{Block, BlockError};
pub use crate::bump_block::BumpBlock;
pub use crate::heap::{BlockList, Handle, HeaderRequest, Place, ZapHeap};
