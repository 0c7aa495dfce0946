//! The block list and the heap built on it: size classes decide whether an
//! allocation goes to the head block, to the overflow block, or is refused.

use vstd::prelude::*;

use crate::allocator::{
    add_alignment_padding, padded, size_class_of, AllocError, AllocHeader, AllocObject, AllocRaw,
    ArraySize, Mark, SizeClass,
};
use crate::bump_block::{bump_target, fits, next_hole, BumpBlock};
use crate::constants::{ALIGN, BLOCK_CAPACITY, BLOCK_SIZE, MEDIUM_OBJECT_MAX};

verus! {

/// Most blocks that can exist at once: no more fit in the address space.
pub const MAX_BLOCKS: usize = usize::MAX / BLOCK_SIZE;

/// A block that has handed out nothing: its hole is the whole payload and
/// every line mark is free.
pub open spec fn is_fresh(b: BumpBlock) -> bool {
    b.cursor() == BLOCK_CAPACITY && b.limit() == 0 && b.marks_clear()
}

/// As head, `b` takes an allocation of `size` bytes of class `class`: the
/// allocation is not a medium one larger than the hole, and it succeeds.
pub open spec fn takes(b: BumpBlock, size: int, class: SizeClass) -> bool {
    !(class == SizeClass::Medium && size > b.hole_size()) && alloc_succeeds(b, size)
}

/// `n` is the block taken from the free pool `free`, or a new block with
/// id `next_id` when that pool is empty, after `size` bytes were allocated
/// in it at `p`; the free pool of `new` is what is left.
pub open spec fn from_pool(free: Seq<BumpBlock>, next_id: usize, new: BlockList, n: BumpBlock, size: int, p: usize) -> bool {
    if free.len() > 0 {
        &&& new.free@ == free.drop_last()
        &&& BumpBlock::alloc_post(free.last(), n, size, Some(p))
    } else {
        &&& new.free@ == free
        &&& n.block_id() == next_id
        &&& n.marks_clear()
        &&& n.limit() == 0
        &&& n.cursor() == bump_target(BLOCK_CAPACITY as int, size)
        &&& p == n.cursor()
    }
}

/// `n` is the block taken from the free pool of `old`, or a new block when
/// that pool is empty, after `size` bytes were allocated in it at `p`.
pub open spec fn from_free(old: BlockList, new: BlockList, n: BumpBlock, size: int, p: usize) -> bool {
    from_pool(old.free@, old.next_id, new, n, size, p)
}

/// The outcome `r` of allocating `size` bytes in the overflow block `ov`
/// with free pool `free`, recycled pool `recycle` and next id `next_id`;
/// `new` is the list afterwards.
pub open spec fn overflow_moves(
    ov: Option<BumpBlock>,
    free: Seq<BumpBlock>,
    recycle: Seq<BumpBlock>,
    next_id: usize,
    new: BlockList,
    size: int,
    r: Result<usize, AllocError>,
) -> bool {
    let in_place = ov is Some && alloc_succeeds(ov->0, size);
    &&& in_place ==> r is Ok
    &&& free.len() > 0 ==> r is Ok
    &&& match r {
        Err(e) => {
            &&& e == AllocError::OOM
            &&& free.len() == 0
            &&& new.overflow == ov
            &&& new.free@ == free
            &&& new.recycle@ == recycle
        },
        Ok(p) => {
            &&& new.overflow is Some
            &&& new.overflow->0.cursor() == p
            &&& p + size <= BLOCK_CAPACITY
            &&& if in_place {
                &&& BumpBlock::alloc_post(ov->0, new.overflow->0, size, Some(p))
                &&& new.free@ == free
                &&& new.recycle@ == recycle
            } else {
                &&& from_pool(free, next_id, new, new.overflow->0, size, p)
                &&& new.recycle@ == if ov is Some {
                    recycle.push(ov->0)
                } else {
                    recycle
                }
            }
        },
    }
}

/// The outcome `r` of `overflow_alloc(size)`, taking the list from `old`
/// to `new`.
pub open spec fn overflow_post(old: BlockList, new: BlockList, size: int, r: Result<usize, AllocError>) -> bool {
    &&& new.head == old.head
    &&& new.used@ == old.used@
    &&& overflow_moves(old.overflow, old.free@, old.recycle@, old.next_id, new, size, r)
}

/// As head, `b` ends the search for room for `size` bytes of class
/// `class`: a medium allocation larger than its hole goes on to the
/// overflow block, or else `b` takes the allocation.
pub open spec fn stops(b: BumpBlock, size: int, class: SizeClass) -> bool {
    (class == SizeClass::Medium && size > b.hole_size()) || alloc_succeeds(b, size)
}

/// How many blocks, taken from the end of the recycled pool `s`, do not
/// end the search before one does (or the pool runs out).
pub open spec fn skipped(s: Seq<BumpBlock>, size: int, class: SizeClass) -> nat
    decreases s.len(),
{
    if s.len() == 0 {
        0
    } else if stops(s.last(), size, class) {
        0
    } else {
        1 + skipped(s.drop_last(), size, class)
    }
}

/// The last `k` blocks of `s`, last first: the order in which they are
/// taken from the pool.
pub open spec fn popped(s: Seq<BumpBlock>, k: int) -> Seq<BumpBlock> {
    Seq::new(k as nat, |i: int| s[s.len() - 1 - i])
}

/// When the last `j` blocks of `s` do not end the search, `j` of the
/// skipped blocks are those.
pub proof fn lemma_skipped(s: Seq<BumpBlock>, size: int, class: SizeClass, j: int)
    requires
        0 <= j <= s.len(),
        forall|i: int| 0 <= i < j ==> !stops(#[trigger] s[s.len() - 1 - i], size, class),
    ensures
        skipped(s, size, class) == j + skipped(s.subrange(0, s.len() - j), size, class),
    decreases j,
{
    if j == 0 {
        assert(s.subrange(0, s.len() as int) =~= s);
    } else {
        assert(!stops(s[s.len() - 1 - 0], size, class));
        let d = s.drop_last();
        assert forall|i: int| 0 <= i < j - 1 implies !stops(#[trigger] d[d.len() - 1 - i], size, class) by {
            assert(d[d.len() - 1 - i] == s[s.len() - 1 - (i + 1)]);
        }
        lemma_skipped(d, size, class, j - 1);
        assert(d.subrange(0, d.len() - (j - 1)) =~= s.subrange(0, s.len() - j));
    }
}

/// `inner_alloc(size)` on `b` returns an allocation.
pub open spec fn alloc_succeeds(b: BumpBlock, size: int) -> bool {
    fits(b.cursor(), b.limit(), size) || (b.limit() > 0 && next_hole(b.marks(), b.limit(), size) is Some)
}

pub open spec fn all_wf(s: Seq<BumpBlock>) -> bool {
    forall|i: int| 0 <= i < s.len() ==> (#[trigger] s[i]).wf()
}

/// The block that receives an allocation.
#[derive(Copy, Clone, Debug, PartialEq, Eq, Structural)]
pub enum Place {
    Head,
    Overflow,
}

/// The blocks of a heap: the head block that takes allocations, the
/// overflow block for medium allocations that do not fit the head's hole,
/// and pools of free (holding nothing), recycled (with holes left) and used
/// blocks.
pub struct BlockList {
    pub head: Option<BumpBlock>,
    pub overflow: Option<BumpBlock>,
    pub free: Vec<BumpBlock>,
    pub recycle: Vec<BumpBlock>,
    pub used: Vec<BumpBlock>,
    /// The id the next new block gets.
    pub next_id: usize,
}

impl BlockList {
    pub open spec fn count(&self) -> int {
        (if self.head is Some { 1int } else { 0 }) + (if self.overflow is Some { 1int } else { 0 })
            + self.free@.len() + self.recycle@.len() + self.used@.len()
    }

    /// Every block is well formed, every free block is fresh, and the
    /// number of blocks stays within `MAX_BLOCKS`.
    pub open spec fn wf(&self) -> bool {
        &&& self.head matches Some(h) ==> h.wf()
        &&& self.overflow matches Some(o) ==> o.wf()
        &&& all_wf(self.free@)
        &&& forall|i: int| 0 <= i < self.free@.len() ==> is_fresh(#[trigger] self.free@[i])
        &&& all_wf(self.recycle@)
        &&& all_wf(self.used@)
        &&& self.count() <= MAX_BLOCKS
    }

    /// The block at `place`.
    pub open spec fn block_at(&self, place: Place) -> Option<BumpBlock> {
        match place {
            Place::Head => self.head,
            Place::Overflow => self.overflow,
        }
    }

    pub fn new() -> (r: BlockList)
        ensures
            r.wf(),
            r.head is None,
            r.overflow is None,
            r.free@.len() == 0,
            r.recycle@.len() == 0,
            r.used@.len() == 0,
    {
        BlockList {
            head: None,
            overflow: None,
            free: Vec::new(),
            recycle: Vec::new(),
            used: Vec::new(),
            next_id: 0,
        }
    }

    /// The number of blocks held, in every role.
    pub fn block_count(&self) -> (r: usize)
        requires
            self.wf(),
        ensures
            r == self.count(),
    {
        let mut count: usize = 0;
        if self.head.is_some() {
            count = count + 1;
        }
        if self.overflow.is_some() {
            count = count + 1;
        }
        count + self.free.len() + self.recycle.len() + self.used.len()
    }

    /// A new block with the next id, unless the list already holds
    /// `MAX_BLOCKS` or has run out of ids.
    fn new_block(&mut self) -> (r: Result<BumpBlock, AllocError>)
        requires
            old(self).wf(),
        ensures
            final(self).wf(),
            final(self).head == old(self).head,
            final(self).overflow == old(self).overflow,
            final(self).free@ == old(self).free@,
            final(self).recycle@ == old(self).recycle@,
            final(self).used@ == old(self).used@,
            r matches Err(e) ==> e == AllocError::OOM,
            r matches Ok(b) ==> b.wf() && is_fresh(b) && old(self).count() < MAX_BLOCKS
                && b.block_id() == old(self).next_id,
            old(self).count() >= MAX_BLOCKS || old(self).next_id == usize::MAX ==> r is Err,
    {
        if self.block_count() >= MAX_BLOCKS || self.next_id == usize::MAX {
            return Err(AllocError::OOM);
        }
        let mut b = match BumpBlock::new() {
            Ok(b) => b,
            Err(e) => {
                return Err(e);
            },
        };
        b.set_id(self.next_id);
        self.next_id = self.next_id + 1;
        Ok(b)
    }

    /// Takes the last free block, or makes a new one when none is free.
    pub fn get_free_block(&mut self) -> (r: Result<BumpBlock, AllocError>)
        requires
            old(self).wf(),
        ensures
            final(self).wf(),
            final(self).head == old(self).head,
            final(self).overflow == old(self).overflow,
            final(self).recycle@ == old(self).recycle@,
            final(self).used@ == old(self).used@,
            old(self).free@.len() > 0 ==> r == Ok::<BumpBlock, AllocError>(old(self).free@.last())
                && final(self).free@ == old(self).free@.drop_last(),
            old(self).free@.len() == 0 ==> final(self).free@ == old(self).free@,
            r matches Err(e) ==> e == AllocError::OOM && old(self).free@.len() == 0,
            r matches Ok(b) ==> b.wf() && is_fresh(b) && final(self).count() < MAX_BLOCKS,
            old(self).free@.len() == 0 && r is Ok ==> r->Ok_0.block_id() == old(self).next_id,
            old(self).free@.len() > 0 ==> final(self).next_id == old(self).next_id,
    {
        if !self.free.is_empty() {
            let b = self.free.pop().unwrap();
            proof {
                assert(old(self).free@[old(self).free@.len() - 1] == b);
                assert forall|i: int| 0 <= i < self.free@.len() implies is_fresh(
                    #[trigger] self.free@[i],
                ) && self.free@[i].wf() by {
                    assert(self.free@[i] == old(self).free@[i]);
                }
            }
            Ok(b)
        } else {
            self.new_block()
        }
    }

    /// Takes the last recycled block, else the last free block, else makes
    /// a new one.
    pub fn get_recycle_block(&mut self) -> (r: Result<BumpBlock, AllocError>)
        requires
            old(self).wf(),
        ensures
            final(self).wf(),
            final(self).head == old(self).head,
            final(self).overflow == old(self).overflow,
            final(self).used@ == old(self).used@,
            old(self).recycle@.len() > 0 ==> r == Ok::<BumpBlock, AllocError>(
                old(self).recycle@.last(),
            ) && final(self).recycle@ == old(self).recycle@.drop_last() && final(self).free@ == old(
                self,
            ).free@,
            old(self).recycle@.len() == 0 && old(self).free@.len() > 0 ==> r == Ok::<
                BumpBlock,
                AllocError,
            >(old(self).free@.last()) && final(self).free@ == old(self).free@.drop_last()
                && final(self).recycle@ == old(self).recycle@,
            old(self).recycle@.len() == 0 && old(self).free@.len() == 0 ==> final(self).free@ == old(
                self,
            ).free@ && final(self).recycle@ == old(self).recycle@ && (r matches Ok(b) ==> is_fresh(
                b,
            )),
            r matches Err(e) ==> e == AllocError::OOM && old(self).recycle@.len() == 0 && old(
                self,
            ).free@.len() == 0,
            r matches Ok(b) ==> b.wf() && final(self).count() < MAX_BLOCKS,
            old(self).recycle@.len() == 0 && old(self).free@.len() == 0 && r is Ok ==> r->Ok_0.block_id()
                == old(self).next_id,
            old(self).recycle@.len() > 0 || old(self).free@.len() > 0 ==> final(self).next_id == old(
                self,
            ).next_id,
    {
        if !self.recycle.is_empty() {
            let b = self.recycle.pop().unwrap();
            proof {
                assert(old(self).recycle@[old(self).recycle@.len() - 1] == b);
                assert forall|i: int| 0 <= i < self.recycle@.len() implies (
                #[trigger] self.recycle@[i]).wf() by {
                    assert(self.recycle@[i] == old(self).recycle@[i]);
                }
            }
            Ok(b)
        } else {
            self.get_free_block()
        }
    }

    /// Allocates `alloc_size` bytes in the overflow block. When the
    /// overflow block has no room, a free or new block replaces it and the
    /// old one goes to the recycled pool.
    pub fn overflow_alloc(&mut self, alloc_size: usize) -> (r: Result<usize, AllocError>)
        requires
            old(self).wf(),
            alloc_size <= BLOCK_CAPACITY,
        ensures
            final(self).wf(),
            overflow_post(*old(self), *final(self), alloc_size as int, r),
    {
        let ghost pre = *self;
        let taken = self.overflow.take();
        match taken {
            Some(mut overflow) => {
                let ghost o = overflow;
                match overflow.inner_alloc(alloc_size) {
                    Some(space) => {
                        self.overflow = Some(overflow);
                        Ok(space)
                    },
                    None => {
                        assert(overflow == o);
                        self.overflow = Some(overflow);
                        let fresh = if !self.free.is_empty() {
                            let b = self.free.pop().unwrap();
                            proof {
                                assert(pre.free@[pre.free@.len() - 1] == b);
                                assert forall|i: int| 0 <= i < self.free@.len() implies is_fresh(
                                    #[trigger] self.free@[i],
                                ) && self.free@[i].wf() by {
                                    assert(self.free@[i] == pre.free@[i]);
                                }
                            }
                            b
                        } else {
                            match self.new_block() {
                                Ok(b) => b,
                                Err(e) => {
                                    return Err(e);
                                },
                            }
                        };
                        let overflow = self.overflow.take().unwrap();
                        self.recycle.push(overflow);
                        let mut fresh = fresh;
                        proof {
                            lemma_fresh_fits(fresh, alloc_size as int);
                            assert forall|i: int| 0 <= i < self.recycle@.len() implies (
                            #[trigger] self.recycle@[i]).wf() by {
                                if i < pre.recycle@.len() {
                                    assert(self.recycle@[i] == pre.recycle@[i]);
                                }
                            }
                        }
                        let space = fresh.inner_alloc(alloc_size).unwrap();
                        self.overflow = Some(fresh);
                        Ok(space)
                    },
                }
            },
            None => {
                let mut fresh = match self.get_free_block() {
                    Ok(b) => b,
                    Err(e) => {
                        return Err(e);
                    },
                };
                proof {
                    lemma_fresh_fits(fresh, alloc_size as int);
                }
                let space = fresh.inner_alloc(alloc_size).unwrap();
                self.overflow = Some(fresh);
                Ok(space)
            },
        }
    }
}

/// Where an allocation lies: the id of its block and its offset there.
#[derive(Copy, Clone, Debug, PartialEq, Eq, Structural)]
pub struct Handle {
    pub block: usize,
    pub offset: usize,
}

/// The offset of the header in front of the payload of a result.
pub open spec fn header_result<H>(r: Result<Handle, AllocError>) -> Result<usize, AllocError> {
    match r {
        Ok(p) => Ok((p.offset - header_alloc_size::<H>()) as usize),
        Err(e) => Err(e),
    }
}

/// `new` is `mid` with bytes `[lo, hi)` of the block at `place` set to
/// zero.
pub open spec fn zeroed_at(mid: BlockList, new: BlockList, place: Place, lo: int, hi: int) -> bool {
    &&& new.free@ == mid.free@
    &&& new.recycle@ == mid.recycle@
    &&& new.used@ == mid.used@
    &&& new.next_id == mid.next_id
    &&& place == Place::Head ==> new.overflow == mid.overflow
    &&& place == Place::Overflow ==> new.head == mid.head
    &&& mid.block_at(place) is Some
    &&& new.block_at(place) is Some
    &&& {
        let a = mid.block_at(place)->0;
        let b = new.block_at(place)->0;
        &&& b.cursor() == a.cursor()
        &&& b.limit() == a.limit()
        &&& b.block_id() == a.block_id()
        &&& b.marks() == a.marks()
        &&& b.memory().len() == a.memory().len()
        &&& forall|i: int|
            0 <= i < a.memory().len() ==> #[trigger] b.memory()[i] == if lo <= i < hi {
                0u8
            } else {
                a.memory()[i]
            }
    }
}

/// The head takes the allocation on the first try.
pub open spec fn head_takes(l: BlockList, size: int, class: SizeClass) -> bool {
    &&& class != SizeClass::Large
    &&& l.head is Some
    &&& takes(l.head->0, size, class)
}

/// The head has no room for the allocation and is replaced.
pub open spec fn head_rotates(l: BlockList, size: int, class: SizeClass) -> bool {
    &&& class != SizeClass::Large
    &&& l.head is Some
    &&& !(class == SizeClass::Medium && size > l.head->0.hole_size())
    &&& !alloc_succeeds(l.head->0, size)
}

/// The offset in a result of `find_space`.
pub open spec fn offset_of(r: Result<(Place, usize), AllocError>) -> Result<usize, AllocError> {
    match r {
        Ok((_, p)) => Ok(p),
        Err(e) => Err(e),
    }
}

/// The outcome `r` of finding `size` bytes of class `class` (small or
/// medium), taking the list from `old` to `new`.
pub open spec fn routed(old: BlockList, new: BlockList, size: int, class: SizeClass, r: Result<usize, AllocError>) -> bool {
    let h = old.head->0;
    &&& old.free@.len() > 0 ==> r is Ok
    &&& r matches Err(e) ==> {
        &&& e == AllocError::OOM
        &&& old.free@.len() == 0
        &&& new.free@ == old.free@
        &&& new.overflow == old.overflow
        &&& new.count() == old.count()
    }
    &&& r matches Ok(p) ==> p % ALIGN == 0 && p + size <= BLOCK_CAPACITY
    // no head: a free or new block becomes the head
    &&& old.head is None ==> {
        &&& new.overflow == old.overflow
        &&& new.recycle@ == old.recycle@
        &&& new.used@ == old.used@
        &&& r matches Ok(p) ==> new.head is Some && from_free(old, new, new.head->0, size, p)
    }
    // a medium allocation larger than the head's hole goes to overflow
    &&& old.head is Some && class == SizeClass::Medium && size > h.hole_size() ==> overflow_post(
        old,
        new,
        size,
        r,
    )
    // the head takes it
    &&& head_takes(old, size, class) ==> {
        &&& r is Ok
        &&& new.head is Some
        &&& BumpBlock::alloc_post(h, new.head->0, size, Some(r->Ok_0))
        &&& new.overflow == old.overflow
        &&& new.free@ == old.free@
        &&& new.recycle@ == old.recycle@
        &&& new.used@ == old.used@
    }
    // the head is full: it goes to used, and blocks are taken from the end
    // of the recycled pool until one ends the search; those that do not go
    // to used too. When the pool runs out, a free or new block becomes the
    // head and takes the allocation.
    &&& head_rotates(old, size, class) ==> {
        let rc = old.recycle@;
        let n = rc.len() as int;
        let k = skipped(rc, size, class) as int;
        &&& k <= n
        &&& k < n ==> {
            let b = rc[n - k - 1];
            &&& new.used@ == old.used@.push(h) + popped(rc, k)
            &&& if class == SizeClass::Medium && size > b.hole_size() {
                &&& new.head == Some(b)
                &&& overflow_moves(old.overflow, old.free@, rc.subrange(0, n - k - 1), old.next_id, new, size, r)
            } else {
                &&& r is Ok
                &&& new.head is Some
                &&& BumpBlock::alloc_post(b, new.head->0, size, Some(r->Ok_0))
                &&& new.recycle@ == rc.subrange(0, n - k - 1)
                &&& new.free@ == old.free@
                &&& new.overflow == old.overflow
            }
        }
        &&& k == n ==> (r matches Ok(p) ==> {
            &&& new.used@ == old.used@.push(h) + popped(rc, n)
            &&& new.recycle@.len() == 0
            &&& new.head is Some
            &&& from_free(old, new, new.head->0, size, p)
            &&& new.overflow == old.overflow
        })
    }
}

/// A heap of line-marked bump blocks whose allocations carry headers of
/// type `H`. Every header written is recorded with the handle of the
/// place it was written to.
pub struct ZapHeap<H> {
    blocks: BlockList,
    headers: Vec<(Handle, H)>,
    requests: Vec<HeaderRequest>,
}

/// What the heap asked of the header type for one allocation: the header's
/// place, the payload size, the size class, the mark, and whether the
/// header was made for an array (`new_array`) or an object (`new`).
#[derive(Copy, Clone, Debug, PartialEq, Eq, Structural)]
pub struct HeaderRequest {
    pub at: Handle,
    pub size: u32,
    pub size_class: SizeClass,
    pub mark: Mark,
    pub array: bool,
}

/// The header last written at `at`, according to `log`.
pub open spec fn header_at<H>(log: Seq<(Handle, H)>, at: Handle) -> Option<H>
    decreases log.len(),
{
    if log.len() == 0 {
        None
    } else if log.last().0 == at {
        Some(log.last().1)
    } else {
        header_at(log.drop_last(), at)
    }
}

/// Bytes reserved in front of every payload for a header of type `H`.
pub open spec fn header_alloc_size<H>() -> int {
    padded(vstd::layout::size_of::<H>() as int)
}

/// Total bytes taken by an allocation with `payload` bytes behind a header
/// of type `H`.
pub open spec fn alloc_size_for<H>(payload: int) -> int {
    padded(header_alloc_size::<H>() + payload)
}

/// The header in front of the payload at `object`.
pub open spec fn header_of<H>(object: Handle) -> Handle {
    Handle { block: object.block, offset: (object.offset - header_alloc_size::<H>()) as usize }
}

/// The payload behind the header at `header`.
pub open spec fn object_of<H>(header: Handle) -> Handle {
    Handle { block: header.block, offset: (header.offset + header_alloc_size::<H>()) as usize }
}

/// A size the heap serves from blocks: small or medium.
pub open spec fn served(size: int) -> bool {
    size_class_of(size) matches Some(c) && c != SizeClass::Large
}

impl<H: AllocHeader> ZapHeap<H> {
    pub closed spec fn list(&self) -> BlockList {
        self.blocks
    }

    /// The header requests made so far, oldest first; the `i`th made the
    /// `i`th header of `header_log`.
    pub closed spec fn request_log(&self) -> Seq<HeaderRequest> {
        self.requests@
    }

    /// The headers made so far, oldest first, each with the handle of the
    /// place it stands for.
    pub closed spec fn header_log(&self) -> Seq<(Handle, H)> {
        self.headers@
    }

    pub open spec fn wf(&self) -> bool {
        self.list().wf()
    }

    /// An empty heap: it holds no block until the first allocation.
    pub fn new() -> (r: ZapHeap<H>)
        ensures
            r.wf(),
            r.list().count() == 0,
            r.list().head is None,
            r.list().overflow is None,
            r.header_log().len() == 0,
            r.request_log().len() == 0,
    {
        ZapHeap { blocks: BlockList::new(), headers: Vec::new(), requests: Vec::new() }
    }

    /// The heap's blocks.
    pub fn blocks(&self) -> (r: &BlockList)
        ensures
            *r == self.list(),
    {
        &self.blocks
    }

    /// Finds `alloc_size` bytes for an allocation of class `size_class`.
    ///
    /// Large allocations are refused. With no head block, a free or new
    /// block becomes the head. A medium allocation larger than the head's
    /// current hole goes to the overflow block. Otherwise the head takes
    /// it; when the head has no hole left for it, the head moves to the
    /// used pool, a recycled, free or new block replaces it, and the search
    /// starts over. Returns where the space was found and its offset.
    pub fn find_space(&mut self, alloc_size: usize, size_class: SizeClass) -> (r: Result<
        (Place, usize),
        AllocError,
    >)
        requires
            old(self).wf(),
            size_class != SizeClass::Large ==> alloc_size <= BLOCK_CAPACITY,
        ensures
            final(self).wf(),
            final(self).header_log() == old(self).header_log(),
            final(self).request_log() == old(self).request_log(),
            size_class == SizeClass::Large ==> r == Err::<(Place, usize), AllocError>(
                AllocError::BadRequest,
            ) && final(self).list() == old(self).list(),
            size_class != SizeClass::Large ==> routed(
                old(self).list(),
                final(self).list(),
                alloc_size as int,
                size_class,
                offset_of(r),
            ),
            r matches Ok((place, p)) ==> {
                &&& final(self).list().block_at(place) matches Some(b) && b.cursor() == p
                &&& p % ALIGN == 0
                &&& p + alloc_size <= BLOCK_CAPACITY
            },
    {
        if size_class == SizeClass::Large {
            return Err(AllocError::BadRequest);
        }
        let ghost pre = self.blocks;
        let ghost size = alloc_size as int;
        let ghost rc = pre.recycle@;
        let ghost n = rc.len() as int;
        let ghost mut rot: int = 0;
        loop
            invariant
                self.blocks.wf(),
                pre.wf(),
                pre == old(self).list(),
                size == alloc_size,
                rc == pre.recycle@,
                n == rc.len(),
                self.headers@ == old(self).headers@,
                self.requests@ == old(self).requests@,
                size_class != SizeClass::Large,
                alloc_size <= BLOCK_CAPACITY,
                rot >= 0,
                self.blocks.overflow == pre.overflow,
                pre.free@.len() == 0 ==> self.blocks.free@ == pre.free@,
                pre.free@.len() > 0 ==> self.blocks.free@.len() > 0 || (self.blocks.head is Some
                    && is_fresh(self.blocks.head->0)),
                self.blocks.count() == pre.count() || (self.blocks.head is Some && is_fresh(
                    self.blocks.head->0,
                )),
                rot == 0 ==> self.blocks == pre,
                rot >= 1 ==> {
                    &&& head_rotates(pre, size, size_class)
                    &&& self.blocks.head is Some
                    &&& rot <= n + 1
                    &&& forall|i: int| 0 <= i < rot - 1 ==> !stops(#[trigger] rc[n - 1 - i], size, size_class)
                    &&& self.blocks.used@ == pre.used@.push(pre.head->0) + popped(rc, rot - 1)
                    &&& rot <= n ==> {
                        &&& self.blocks.head == Some(rc[n - rot])
                        &&& self.blocks.recycle@ == rc.subrange(0, n - rot)
                        &&& self.blocks.free@ == pre.free@
                        &&& self.blocks.next_id == pre.next_id
                    }
                    &&& rot == n + 1 ==> {
                        &&& self.blocks.recycle@.len() == 0
                        &&& pre.free@.len() > 0 ==> self.blocks.head == Some(pre.free@.last())
                            && self.blocks.free@ == pre.free@.drop_last()
                        &&& pre.free@.len() == 0 ==> is_fresh(self.blocks.head->0)
                            && self.blocks.head->0.block_id() == pre.next_id
                    }
                },
            decreases self.blocks.recycle@.len() + self.blocks.free@.len(),
                if self.blocks.head matches Some(h) && is_fresh(h) {
                    0int
                } else {
                    1int
                },
        {
            let taken = self.blocks.head.take();
            match taken {
                None => {
                    let mut b = match self.blocks.get_free_block() {
                        Ok(b) => b,
                        Err(e) => {
                            return Err(e);
                        },
                    };
                    proof {
                        lemma_fresh_fits(b, alloc_size as int);
                    }
                    let ghost b0 = b;
                    let space = b.inner_alloc(alloc_size).unwrap();
                    self.blocks.head = Some(b);
                    proof {
                        assert(b.marks() == b0.marks());
                    }
                    return Ok((Place::Head, space));
                },
                Some(mut head) => {
                    let ghost h = head;
                    proof {
                        if rot == n + 1 && pre.free@.len() > 0 {
                            assert(is_fresh(pre.free@[pre.free@.len() - 1]));
                        }
                        if is_fresh(h) {
                            lemma_fresh_fits(h, alloc_size as int);
                        }
                        if rot >= 1 {
                            lemma_skipped(rc, size, size_class, rot - 1);
                            let sub = rc.subrange(0, n - rot + 1);
                            if rot <= n {
                                assert(sub.last() == rc[n - rot]);
                            } else {
                                assert(sub.len() == 0);
                            }
                        }
                    }
                    if size_class == SizeClass::Medium && alloc_size > head.current_hole_size() {
                        self.blocks.head = Some(head);
                        let res = self.blocks.overflow_alloc(alloc_size);
                        proof {
                            if res is Ok {
                                assert(self.blocks.overflow->0.wf());
                            }
                        }
                        return match res {
                            Ok(space) => Ok((Place::Overflow, space)),
                            Err(e) => Err(e),
                        };
                    }
                    match head.inner_alloc(alloc_size) {
                        Some(space) => {
                            self.blocks.head = Some(head);
                            proof {
                                assert(head.marks() == h.marks());
                            }
                            return Ok((Place::Head, space));
                        },
                        None => {
                            proof {
                                assert(!alloc_succeeds(h, size));
                                assert(!stops(h, size, size_class));
                            }
                            self.blocks.head = Some(head);
                            let ghost before = self.blocks;
                            let replacement = match self.blocks.get_recycle_block() {
                                Ok(b) => b,
                                Err(e) => {
                                    proof {
                                        if rot >= 1 {
                                            assert(rot == n);
                                            let sub = rc.subrange(0, n - rot + 1);
                                            assert(sub.drop_last().len() == 0);
                                            assert(skipped(sub.drop_last(), size, size_class) == 0);
                                            assert(skipped(rc, size, size_class) == n);
                                        }
                                    }
                                    return Err(e);
                                },
                            };
                            let previous = self.blocks.head.take().unwrap();
                            let ghost used_before = self.blocks.used@;
                            self.blocks.used.push(previous);
                            self.blocks.head = Some(replacement);
                            proof {
                                assert forall|i: int| 0 <= i < self.blocks.used@.len() implies (
                                #[trigger] self.blocks.used@[i]).wf() by {
                                    if i < used_before.len() {
                                        assert(self.blocks.used@[i] == used_before[i]);
                                    }
                                }
                                if rot == 0 {
                                    assert(self.blocks.used@ =~= pre.used@.push(pre.head->0) + popped(rc, 0));
                                } else {
                                    assert(self.blocks.used@ =~= pre.used@.push(pre.head->0) + popped(rc, rot));
                                }
                                if before.recycle@.len() > 0 {
                                    assert(before.recycle@.last() == rc[n - rot - 1]);
                                    assert(before.recycle@.drop_last() =~= rc.subrange(0, n - rot - 1));
                                }
                                if before.free@.len() > 0 && before.recycle@.len() == 0 {
                                    assert(before.free@[before.free@.len() - 1] == replacement);
                                    assert(is_fresh(before.free@[before.free@.len() - 1]));
                                }
                                assert forall|i: int| 0 <= i < rot implies !stops(#[trigger] rc[n - 1 - i], size, size_class) by {
                                    if i == rot - 1 {
                                        assert(rc[n - 1 - i] == h);
                                    }
                                }
                                rot = rot + 1;
                            }
                        },
                    }
                },
            }
        }
    }

    /// Reserves room for a header and `payload` bytes. Returns where the
    /// room was found, the offset of the header, and the size class.
    fn reserve(&mut self, payload: usize) -> (r: Result<(Place, usize, SizeClass), AllocError>)
        requires
            old(self).wf(),
        ensures
            final(self).wf(),
            final(self).headers@ == old(self).headers@,
            final(self).requests@ == old(self).requests@,
            !served(alloc_size_for::<H>(payload as int)) ==> r == Err::<
                (Place, usize, SizeClass),
                AllocError,
            >(AllocError::BadRequest) && final(self).list() == old(self).list(),
            served(alloc_size_for::<H>(payload as int)) ==> (r matches Err(e) ==> e
                == AllocError::OOM),
            r matches Ok((place, h, c)) ==> {
                &&& final(self).list().block_at(place) matches Some(b) && b.cursor() == h
                &&& h % ALIGN == 0
                &&& h + alloc_size_for::<H>(payload as int) <= BLOCK_CAPACITY
                &&& payload <= MEDIUM_OBJECT_MAX
                &&& size_class_of(alloc_size_for::<H>(payload as int)) == Some(c)
            },
            served(alloc_size_for::<H>(payload as int)) ==> routed(
                old(self).list(),
                final(self).list(),
                alloc_size_for::<H>(payload as int),
                size_class_of(alloc_size_for::<H>(payload as int))->0,
                match r {
                    Ok((_, h, _)) => Ok(h),
                    Err(e) => Err(e),
                },
            ),
    {
        let header_size = core::mem::size_of::<H>();
        if header_size > MEDIUM_OBJECT_MAX || payload > MEDIUM_OBJECT_MAX {
            return Err(AllocError::BadRequest);
        }
        let header_alloc_size = add_alignment_padding(header_size);
        let total_size = header_alloc_size + payload;
        let alloc_size = add_alignment_padding(total_size);
        let size_class = match SizeClass::get_for_size(alloc_size) {
            Ok(c) => c,
            Err(e) => {
                return Err(e);
            },
        };
        match self.find_space(alloc_size, size_class) {
            Ok((place, space)) => Ok((place, space, size_class)),
            Err(e) => Err(e),
        }
    }

    /// The id of the block at `place`.
    fn id_at(&self, place: Place) -> (r: usize)
        requires
            self.list().block_at(place) is Some,
        ensures
            r == self.list().block_at(place)->0.block_id(),
    {
        match place {
            Place::Head => match &self.blocks.head {
                Some(b) => b.id(),
                None => 0,
            },
            Place::Overflow => match &self.blocks.overflow {
                Some(b) => b.id(),
                None => 0,
            },
        }
    }

    /// Allocates room for an object of type `T` behind its header, records
    /// the header, and returns the handle of the object's payload.
    ///
    /// The object itself is not stored: the heap's memory is bytes, and a
    /// value of any type cannot be written into them. The caller owns what
    /// goes into the payload bytes.
    pub fn alloc_object<T: AllocObject<H::TypeId>>(&mut self, object: T) -> (r: Result<
        Handle,
        AllocError,
    >)
        requires
            old(self).wf(),
        ensures
            final(self).wf(),
            Self::allocated(*old(self), *final(self), vstd::layout::size_of::<T>() as int, r),
            Self::routes(old(self).list(), final(self).list(), vstd::layout::size_of::<T>() as int, r),
            Self::requested(*old(self), *final(self), vstd::layout::size_of::<T>() as int, false, r),
    {
        let object_size = core::mem::size_of::<T>();
        match self.reserve(object_size) {
            Ok((place, space, size_class)) => {
                proof {
                    self.lemma_placed(place, space as int, object_size as int);
                }
                let block = self.id_at(place);
                let header = H::new::<T>(object_size as u32, size_class, Mark::Allocated);
                self.headers.push((Handle { block, offset: space }, header));
                self.requests.push(
                    HeaderRequest {
                        at: Handle { block, offset: space },
                        size: object_size as u32,
                        size_class,
                        mark: Mark::Allocated,
                        array: false,
                    },
                );
                assert(self.header_log().drop_last() =~= old(self).header_log());
                assert(self.list().block_at(place) is Some);
                Ok(Handle { block, offset: space + Self::header_alloc_size() })
            },
            Err(e) => Err(e),
        }
    }

    /// Allocates a zeroed array of `size_bytes` bytes behind its header,
    /// writes the header, and returns the handle of the first byte.
    pub fn alloc_array(&mut self, size_bytes: ArraySize) -> (r: Result<Handle, AllocError>)
        requires
            old(self).wf(),
        ensures
            final(self).wf(),
            Self::allocated(*old(self), *final(self), size_bytes as int, r),
            r matches Ok(p) ==> exists|place: Place|
                #![trigger final(self).list().block_at(place)]
                final(self).list().block_at(place) matches Some(b) && b.block_id() == p.block
                    && forall|i: int| p.offset <= i < p.offset + size_bytes ==> b.memory()[i] == 0,
            Self::array_routes(old(self).list(), final(self).list(), size_bytes as int, r),
            Self::requested(*old(self), *final(self), size_bytes as int, true, r),
    {
        let payload = size_bytes as usize;
        match self.reserve(payload) {
            Ok((place, space, size_class)) => {
                let offset = space + Self::header_alloc_size();
                proof {
                    self.lemma_placed(place, space as int, payload as int);
                }
                let block = self.id_at(place);
                let ghost mid = self.blocks;
                match place {
                    Place::Head => {
                        let mut b = self.blocks.head.take().unwrap();
                        b.zero(offset, payload);
                        self.blocks.head = Some(b);
                    },
                    Place::Overflow => {
                        let mut b = self.blocks.overflow.take().unwrap();
                        b.zero(offset, payload);
                        self.blocks.overflow = Some(b);
                    },
                }
                assert(self.list().block_at(place) is Some);
                assert(zeroed_at(mid, self.blocks, place, offset as int, offset + payload));
                let header = H::new_array(size_bytes, size_class, Mark::Allocated);
                self.headers.push((Handle { block, offset: space }, header));
                self.requests.push(
                    HeaderRequest {
                        at: Handle { block, offset: space },
                        size: size_bytes,
                        size_class,
                        mark: Mark::Allocated,
                        array: true,
                    },
                );
                assert(self.header_log().drop_last() =~= old(self).header_log());
                assert(self.list().block_at(place) is Some);
                let res = Handle { block, offset };
                assert(header_result::<H>(Ok::<Handle, AllocError>(res)) == Ok::<usize, AllocError>(space));
                assert(Self::routes(old(self).list(), mid, size_bytes as int, Ok::<Handle, AllocError>(res)));
                assert(zeroed_at(mid, self.list(), place, res.offset as int, res.offset + size_bytes));
                Ok(res)
            },
            Err(e) => Err(e),
        }
    }

    /// The header last written at `at`.
    pub fn header(&self, at: Handle) -> (r: Option<&H>)
        ensures
            r matches Some(h) ==> header_at(self.header_log(), at) == Some(*h),
            r is None ==> header_at(self.header_log(), at) is None,
    {
        let mut i: usize = self.headers.len();
        assert(self.headers@.subrange(0, i as int) =~= self.headers@);
        while i > 0
            invariant
                i <= self.headers@.len(),
                header_at(self.headers@, at) == header_at(self.headers@.subrange(0, i as int), at),
            decreases i,
        {
            let ghost prefix = self.headers@.subrange(0, i as int);
            assert(prefix.drop_last() =~= self.headers@.subrange(0, i - 1));
            if self.headers[i - 1].0 == at {
                return Some(&self.headers[i - 1].1);
            }
            i = i - 1;
        }
        None
    }

    /// A served allocation of `payload` bytes behind a header is routed as
    /// `find_space` routes its total size, taking the list from `old` to
    /// `new`.
    pub open spec fn routes(old: BlockList, new: BlockList, payload: int, r: Result<Handle, AllocError>) -> bool {
        let size = alloc_size_for::<H>(payload);
        served(size) ==> routed(old, new, size, size_class_of(size)->0, header_result::<H>(r))
    }

    /// The header for an allocation of `payload` bytes was asked for with
    /// the payload size, the size class of the total size, and
    /// `Mark::Allocated`, and recorded in front of the payload; a failed
    /// allocation asks for none.
    pub open spec fn requested(old: Self, new: Self, payload: int, array: bool, r: Result<Handle, AllocError>) -> bool {
        &&& r is Err ==> new.request_log() == old.request_log()
        &&& r matches Ok(p) ==> new.request_log() == old.request_log().push(
            HeaderRequest {
                at: header_of::<H>(p),
                size: payload as u32,
                size_class: size_class_of(alloc_size_for::<H>(payload))->0,
                mark: Mark::Allocated,
                array,
            },
        )
    }

    /// The header request last recorded at `at`.
    pub fn header_request(&self, at: Handle) -> (r: Option<HeaderRequest>)
        ensures
            r matches Some(q) ==> exists|i: int|
                0 <= i < self.request_log().len() && #[trigger] self.request_log()[i] == q && q.at
                    == at && forall|j: int|
                    i < j < self.request_log().len() ==> #[trigger] self.request_log()[j].at != at,
            r is None ==> forall|i: int|
                0 <= i < self.request_log().len() ==> #[trigger] self.request_log()[i].at != at,
    {
        let mut i: usize = self.requests.len();
        while i > 0
            invariant
                i <= self.requests@.len(),
                forall|j: int| i <= j < self.requests@.len() ==> #[trigger] self.requests@[j].at != at,
            decreases i,
        {
            if self.requests[i - 1].at == at {
                assert(self.request_log()[i - 1] == self.requests@[i - 1]);
                return Some(self.requests[i - 1]);
            }
            i = i - 1;
        }
        None
    }

    /// A served array allocation of `n` bytes is routed as `find_space`
    /// routes its total size; on success the list is then `new` once the
    /// array's bytes are zeroed.
    pub open spec fn array_routes(old: BlockList, new: BlockList, n: int, r: Result<Handle, AllocError>) -> bool {
        &&& r is Err ==> Self::routes(old, new, n, r)
        &&& r matches Ok(p) ==> exists|mid: BlockList, place: Place|
            #![trigger Self::routes(old, mid, n, r), zeroed_at(mid, new, place, p.offset as int, p.offset + n)]
            Self::routes(old, mid, n, r) && zeroed_at(mid, new, place, p.offset as int, p.offset + n)
    }

    /// `r` is the outcome of allocating `payload` bytes behind a header,
    /// taking the heap from `old` to `new`: on success the allocation lies,
    /// aligned, inside the payload bytes of a block of the heap, and one
    /// header is recorded just below it.
    pub open spec fn allocated(old: Self, new: Self, payload: int, r: Result<Handle, AllocError>) -> bool {
        let size = alloc_size_for::<H>(payload);
        &&& !served(size) ==> r == Err::<Handle, AllocError>(AllocError::BadRequest) && new.list()
            == old.list()
        &&& served(size) ==> (r matches Err(e) ==> e == AllocError::OOM)
        &&& r is Err ==> new.header_log() == old.header_log()
        &&& r matches Ok(p) ==> {
            &&& p.offset % ALIGN == 0
            &&& p.offset >= header_alloc_size::<H>()
            &&& p.offset - header_alloc_size::<H>() + size <= BLOCK_CAPACITY
            &&& exists|place: Place|
                #![trigger new.list().block_at(place)]
                new.list().block_at(place) matches Some(b) && b.block_id() == p.block && b.cursor()
                    == p.offset - header_alloc_size::<H>()
            &&& new.header_log().len() == old.header_log().len() + 1
            &&& new.header_log().drop_last() == old.header_log()
            &&& new.header_log().last().0 == header_of::<H>(p)
        }
    }

    proof fn lemma_placed(&self, place: Place, h: int, payload: int)
        requires
            self.list().block_at(place) matches Some(b) && b.cursor() == h,
            h % ALIGN as int == 0,
            h + alloc_size_for::<H>(payload) <= BLOCK_CAPACITY,
            payload >= 0,
        ensures
            (h + header_alloc_size::<H>()) % ALIGN as int == 0,
            h + header_alloc_size::<H>() + payload <= BLOCK_CAPACITY,
    {
    }

    fn header_alloc_size() -> (r: usize)
        requires
            padded(vstd::layout::size_of::<H>() as int) <= usize::MAX,
        ensures
            r == header_alloc_size::<H>(),
    {
        add_alignment_padding(core::mem::size_of::<H>())
    }

    /// The handle of the header in front of the payload at `object`.
    pub fn get_header(object: Handle) -> (r: Handle)
        requires
            object.offset >= header_alloc_size::<H>(),
        ensures
            r == header_of::<H>(object),
    {
        Handle { block: object.block, offset: object.offset - Self::header_alloc_size() }
    }

    /// The handle of the payload behind the header at `header`.
    pub fn get_object(header: Handle) -> (r: Handle)
        requires
            header.offset + header_alloc_size::<H>() <= usize::MAX,
        ensures
            r == object_of::<H>(header),
    {
        Handle { block: header.block, offset: header.offset + Self::header_alloc_size() }
    }
}

impl<H: AllocHeader> AllocRaw for ZapHeap<H> {
    type Header = H;

    open spec fn raw_wf(&self) -> bool {
        self.wf()
    }

    open spec fn allocation(old: Self, new: Self, payload: int, r: Result<Handle, AllocError>) -> bool {
        Self::allocated(old, new, payload, r)
    }

    open spec fn object_routing(old: Self, new: Self, payload: int, r: Result<Handle, AllocError>) -> bool {
        Self::routes(old.list(), new.list(), payload, r)
    }

    open spec fn array_routing(old: Self, new: Self, n: int, r: Result<Handle, AllocError>) -> bool {
        Self::array_routes(old.list(), new.list(), n, r)
    }

    open spec fn header_handle(object: Handle) -> Handle {
        header_of::<H>(object)
    }

    open spec fn object_handle(header: Handle) -> Handle {
        object_of::<H>(header)
    }

    open spec fn has_header(object: Handle) -> bool {
        object.offset >= header_alloc_size::<H>()
    }

    open spec fn has_object(header: Handle) -> bool {
        header.offset + header_alloc_size::<H>() <= usize::MAX
    }

    fn alloc_object<T: AllocObject<H::TypeId>>(&mut self, object: T) -> (r: Result<
        Handle,
        AllocError,
    >) {
        ZapHeap::alloc_object(self, object)
    }

    fn alloc_array(&mut self, size_bytes: ArraySize) -> (r: Result<Handle, AllocError>) {
        ZapHeap::alloc_array(self, size_bytes)
    }

    fn get_header(object: Handle) -> Handle {
        ZapHeap::<H>::get_header(object)
    }

    fn get_object(header: Handle) -> Handle {
        ZapHeap::<H>::get_object(header)
    }
}

impl<H: AllocHeader> Default for ZapHeap<H> {
    fn default() -> (r: ZapHeap<H>)
        ensures
            r.wf(),
            r.list().count() == 0,
    {
        ZapHeap::new()
    }
}

/// The header found for a payload leads back to that payload.
pub proof fn lemma_header_round_trip<H>(object: Handle)
    requires
        object.offset >= header_alloc_size::<H>(),
    ensures
        object_of::<H>(header_of::<H>(object)) == object,
{
}

/// A fresh block takes any allocation up to its capacity at the top.
pub proof fn lemma_fresh_fits(b: BumpBlock, size: int)
    requires
        is_fresh(b),
        0 <= size <= BLOCK_CAPACITY,
    ensures
        fits(b.cursor(), b.limit(), size),
        alloc_succeeds(b, size),
{
}

} // verus!
