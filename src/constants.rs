//! Geometry of a block and the bounds of the size classes.

use vstd::prelude::*;

verus! {

/// Size in bytes of a block, which is also its alignment.
pub const BLOCK_SIZE: usize = 16384;

/// Size in bytes of a line, the granularity of marking.
pub const LINE_SIZE: usize = 128;

/// Bytes of metadata at the top of each block: one per line.
pub const META_SIZE: usize = BLOCK_SIZE / LINE_SIZE;

/// Number of addressable line marks; the last metadata byte marks the block.
pub const LINE_COUNT: usize = META_SIZE - 1;

/// Bytes of a block available to payloads.
pub const BLOCK_CAPACITY: usize = BLOCK_SIZE - META_SIZE;

/// Offset of the line-mark table within a block.
pub const META_OFFSET: usize = BLOCK_CAPACITY;

/// Alignment of every allocation: the size of a machine word.
pub const ALIGN: usize = 8;

/// Clears the low bits of an address to round it down to `ALIGN`.
pub const ALLOC_ALIGN_MASK: usize = !(ALIGN - 1);

/// Value of a line mark for a line holding nothing live.
pub const FREE: u8 = 0;

/// Value of a line mark for a line holding something live.
pub const MARKED: u8 = 1;

/// Largest allocation size that can be classified: `u32::MAX`.
pub const MAX_ALLOC_SIZE: usize = 4294967295;

pub const SMALL_OBJECT_MIN: usize = 1;

pub const SMALL_OBJECT_MAX: usize = LINE_SIZE;

pub const MEDIUM_OBJECT_MIN: usize = SMALL_OBJECT_MAX + 1;

pub const MEDIUM_OBJECT_MAX: usize = 8192;

pub const LARGE_OBJECT_MIN: usize = MEDIUM_OBJECT_MAX + 1;

pub const LARGE_OBJECT_MAX: usize = MAX_ALLOC_SIZE;

} // verus!
