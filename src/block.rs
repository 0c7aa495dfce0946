//! Raw blocks: power-of-two sized regions of bytes, addressed by offset.

use vstd::prelude::*;

verus! {

/// Why a raw block could not be made.
#[derive(Copy, Clone, Debug, PartialEq, Eq, Structural)]
pub enum BlockError {
    /// The size is zero, not a power of two, or too large for a layout.
    BadRequest,
    /// The system gave no memory.
    OOM,
}

/// `n` is a power of two: one, or twice a power of two.
pub open spec fn is_pow2(n: int) -> bool
    decreases n,
{
    if n <= 0 {
        false
    } else if n == 1 {
        true
    } else {
        n % 2 == 0 && is_pow2(n / 2)
    }
}

/// The sizes a block can be made with: powers of two that fit a layout.
pub open spec fn valid_block_size(size: int) -> bool {
    is_pow2(size) && size <= isize::MAX
}

/// A region of `size` bytes owned by the block, addressed by offsets from
/// its base. The offsets stand for addresses in a region aligned to its
/// size; the buffer that holds the bytes carries no such alignment.
pub struct Block {
    bytes: Vec<u8>,
    size: usize,
}

impl View for Block {
    type V = Seq<u8>;

    closed spec fn view(&self) -> Seq<u8> {
        self.bytes@
    }
}

impl Block {
    /// The block's size agrees with its bytes and is a valid block size.
    pub closed spec fn wf(&self) -> bool {
        &&& self.bytes@.len() == self.size
        &&& valid_block_size(self.size as int)
    }

    /// Makes a block of `size` bytes. Refuses a size that is not a valid
    /// block size, and reports `OOM` when no memory can be had.
    pub fn new(size: usize) -> (r: Result<Block, BlockError>)
        ensures
            !valid_block_size(size as int) <==> r == Err::<Block, BlockError>(BlockError::BadRequest),
            r matches Ok(b) ==> b.wf() && b@.len() == size,
    {
        if !Self::is_valid_size(size) {
            return Err(BlockError::BadRequest);
        }
        let mut bytes: Vec<u8> = Vec::new();
        if bytes.try_reserve(size).is_err() {
            return Err(BlockError::OOM);
        }
        bytes.resize(size, 0u8);
        Ok(Block { bytes, size })
    }

    fn is_valid_size(size: usize) -> (r: bool)
        ensures
            r == valid_block_size(size as int),
    {
        if size == 0 || size > isize::MAX as usize {
            return false;
        }
        let mut m: usize = size;
        while m > 1 && m % 2 == 0
            invariant
                m >= 1,
                is_pow2(m as int) == is_pow2(size as int),
            decreases m,
        {
            m = m / 2;
        }
        m == 1
    }

    /// Gives up the block, handing back its bytes.
    pub fn into_mut_ptr(self) -> (r: Vec<u8>)
        ensures
            r@ == self@,
    {
        self.bytes
    }

    pub fn size(&self) -> (r: usize)
        requires
            self.wf(),
        ensures
            r == self@.len(),
    {
        self.size
    }

    /// Takes over `bytes` as a block of `size` bytes.
    pub fn from_raw_parts(bytes: Vec<u8>, size: usize) -> (r: Block)
        requires
            bytes@.len() == size,
            valid_block_size(size as int),
        ensures
            r.wf(),
            r@ == bytes@,
    {
        Block { bytes, size }
    }

    /// The block's bytes, from its base upward.
    pub fn as_ptr(&self) -> (r: &[u8])
        ensures
            r@ == self@,
    {
        self.bytes.as_slice()
    }

    /// The byte at `offset`.
    pub fn read(&self, offset: usize) -> (r: u8)
        requires
            offset < self@.len(),
        ensures
            r == self@[offset as int],
    {
        self.bytes[offset]
    }

    /// Sets the byte at `offset` to `value`.
    pub fn write(&mut self, offset: usize, value: u8)
        requires
            old(self).wf(),
            offset < old(self)@.len(),
        ensures
            final(self).wf(),
            final(self)@ == old(self)@.update(offset as int, value),
    {
        self.bytes.set(offset, value);
    }
}

} // verus!
