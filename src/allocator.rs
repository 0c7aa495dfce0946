//! Size classes, alignment, errors and the contracts between the heap and
//! the headers and objects it stores.

use vstd::prelude::*;

use crate::constants::{
    ALIGN, LARGE_OBJECT_MAX, LARGE_OBJECT_MIN, MEDIUM_OBJECT_MAX, MEDIUM_OBJECT_MIN,
    SMALL_OBJECT_MAX, SMALL_OBJECT_MIN,
};

use crate::heap::Handle;

verus! {

/// Why an allocation was refused.
#[derive(Copy, Clone, Debug, PartialEq, Eq, Structural)]
pub enum AllocError {
    /// The size asked for is out of range or of the wrong shape.
    BadRequest,
    /// The system gave no memory for a new block.
    OOM,
}

/// A tag naming the type of an allocated object.
pub trait AllocTypeId: Copy + Clone {
}

/// A type that the heap can allocate: it names its type tag.
pub trait AllocObject<T: AllocTypeId> {
    const TYPE_ID: T;
}

/// The header written in front of every allocation.
pub trait AllocHeader: Sized {
    type TypeId: AllocTypeId;

    /// A header for an object of type `O` with `size` payload bytes.
    fn new<O: AllocObject<Self::TypeId>>(size: u32, size_class: SizeClass, mark: Mark) -> Self;

    /// A header for an array of `size` bytes.
    fn new_array(size: ArraySize, size_class: SizeClass, mark: Mark) -> Self;

    /// Marks the header; marking twice is the same as marking once.
    fn mark(&mut self);

    fn is_marked(&self) -> bool;

    fn size_class(&self) -> SizeClass;

    fn size(&self) -> u32;

    fn type_id(&self) -> Self::TypeId;
}

/// An allocator of objects and byte arrays, each preceded by a header.
pub trait AllocRaw: Sized {
    type Header: AllocHeader;

    /// The allocator's state is consistent.
    spec fn raw_wf(&self) -> bool;

    /// The payload handles that `get_header` accepts.
    spec fn has_header(object: Handle) -> bool;

    /// The header handles that `get_object` accepts.
    spec fn has_object(header: Handle) -> bool;

    /// `r` is the outcome of allocating `payload` bytes behind a header,
    /// taking the allocator from `old` to `new`.
    spec fn allocation(old: Self, new: Self, payload: int, r: Result<Handle, AllocError>) -> bool;

    /// Where an object allocation of `payload` bytes was placed.
    spec fn object_routing(old: Self, new: Self, payload: int, r: Result<Handle, AllocError>) -> bool;

    /// Where an array allocation of `n` bytes was placed.
    spec fn array_routing(old: Self, new: Self, n: int, r: Result<Handle, AllocError>) -> bool;

    /// The header in front of the payload at `object`.
    spec fn header_handle(object: Handle) -> Handle;

    /// The payload behind the header at `header`.
    spec fn object_handle(header: Handle) -> Handle;

    fn alloc_object<T: AllocObject<<Self::Header as AllocHeader>::TypeId>>(&mut self, object: T) -> (r: Result<
        Handle,
        AllocError,
    >)
        requires
            old(self).raw_wf(),
        ensures
            final(self).raw_wf(),
            Self::allocation(*old(self), *final(self), vstd::layout::size_of::<T>() as int, r),
            Self::object_routing(*old(self), *final(self), vstd::layout::size_of::<T>() as int, r),
    ;

    fn alloc_array(&mut self, size_bytes: ArraySize) -> (r: Result<Handle, AllocError>)
        requires
            old(self).raw_wf(),
        ensures
            final(self).raw_wf(),
            Self::allocation(*old(self), *final(self), size_bytes as int, r),
            Self::array_routing(*old(self), *final(self), size_bytes as int, r),
    ;

    /// The handle of the header of the payload at `object`.
    fn get_header(object: Handle) -> (r: Handle)
        requires
            Self::has_header(object),
        ensures
            r == Self::header_handle(object),
    ;

    /// The handle of the payload behind the header at `header`.
    fn get_object(header: Handle) -> (r: Handle)
        requires
            Self::has_object(header),
        ensures
            r == Self::object_handle(header),
    ;
}

/// The size class of an allocation, by its total size in bytes.
#[derive(Copy, Clone, Debug, PartialEq, Eq, Structural)]
pub enum SizeClass {
    /// At most one line.
    Small,
    /// More than a line, at most half a block.
    Medium,
    /// Above half a block; not served from blocks.
    Large,
}

/// The size class of a total allocation size, or `None` for a size that
/// has none.
pub open spec fn size_class_of(size: int) -> Option<SizeClass> {
    if SMALL_OBJECT_MIN <= size <= SMALL_OBJECT_MAX {
        Some(SizeClass::Small)
    } else if MEDIUM_OBJECT_MIN <= size <= MEDIUM_OBJECT_MAX {
        Some(SizeClass::Medium)
    } else if LARGE_OBJECT_MIN <= size <= LARGE_OBJECT_MAX {
        Some(SizeClass::Large)
    } else {
        None
    }
}

impl SizeClass {
    pub fn get_for_size(object_size: usize) -> (r: Result<SizeClass, AllocError>)
        ensures
            match size_class_of(object_size as int) {
                Some(c) => r == Ok::<SizeClass, AllocError>(c),
                None => r == Err::<SizeClass, AllocError>(AllocError::BadRequest),
            },
    {
        if SMALL_OBJECT_MIN <= object_size && object_size <= SMALL_OBJECT_MAX {
            Ok(SizeClass::Small)
        } else if MEDIUM_OBJECT_MIN <= object_size && object_size <= MEDIUM_OBJECT_MAX {
            Ok(SizeClass::Medium)
        } else if LARGE_OBJECT_MIN <= object_size && object_size <= LARGE_OBJECT_MAX {
            Ok(SizeClass::Large)
        } else {
            Err(AllocError::BadRequest)
        }
    }
}

/// The length of an array allocation in bytes.
pub type ArraySize = u32;

/// The mark state recorded in a header.
#[derive(Copy, Clone, Debug, PartialEq, Eq, Structural)]
pub enum Mark {
    Allocated,
    Unmarked,
    Marked,
}

/// `size` rounded up to the next multiple of `ALIGN`.
pub open spec fn padded(size: int) -> int {
    if size % ALIGN as int == 0 {
        size
    } else {
        size + (ALIGN - size % ALIGN as int)
    }
}

/// Rounds `object_size` up to a multiple of `ALIGN`.
pub fn add_alignment_padding(object_size: usize) -> (r: usize)
    requires
        padded(object_size as int) <= usize::MAX,
    ensures
        r == padded(object_size as int),
        r % ALIGN == 0,
        object_size <= r < object_size + ALIGN,
{
    let align: usize = ALIGN;
    if object_size % align == 0 {
        return object_size;
    }
    object_size + (align - (object_size % align))
}

} // verus!
