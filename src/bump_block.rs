//! Bump blocks: a raw block with a downward bump cursor, the limit of the
//! current hole, and a table of line marks kept in the block's top bytes.

use vstd::prelude::*;

use crate::allocator::{padded, AllocError};
use crate::block::{valid_block_size, Block, BlockError};
use crate::constants::{
    ALIGN, ALLOC_ALIGN_MASK, BLOCK_CAPACITY, BLOCK_SIZE, FREE, LINE_COUNT, LINE_SIZE, MARKED,
    META_OFFSET,
};

verus! {

impl From<BlockError> for AllocError {
    fn from(error: BlockError) -> (r: AllocError) {
        match error {
            BlockError::BadRequest => AllocError::BadRequest,
            BlockError::OOM => AllocError::OOM,
        }
    }
}

impl vstd::std_specs::convert::FromSpecImpl<BlockError> for AllocError {
    open spec fn obeys_from_spec() -> bool {
        true
    }

    open spec fn from_spec(v: BlockError) -> AllocError {
        match v {
            BlockError::BadRequest => AllocError::BadRequest,
            BlockError::OOM => AllocError::OOM,
        }
    }
}

/// `x` rounded down to a multiple of `ALIGN`.
pub open spec fn align_down(x: int) -> int {
    x - x % ALIGN as int
}

/// Where an allocation of `size` bytes ending at `cursor` would start.
pub open spec fn bump_target(cursor: int, size: int) -> int {
    align_down(cursor - size)
}

/// An allocation of `size` bytes fits below `cursor` without crossing `limit`.
pub open spec fn fits(cursor: int, limit: int, size: int) -> bool {
    size <= cursor && bump_target(cursor, size) >= limit
}

/// Number of whole lines needed to hold `size` bytes.
pub open spec fn lines_for(size: int) -> int {
    (size + LINE_SIZE - 1) / LINE_SIZE as int
}

/// The downward scan of the line marks for a hole.
///
/// Lines below `index` are yet to be seen. `end` is the line that bounds the
/// current run of free lines from above, and `count` is the length of that
/// run. A run that reaches line 0 is a hole when it has at least `needed`
/// lines. A run closed by a marked line gives up its lowest line as a
/// buffer above the mark, so it is a hole when it has more than `needed`
/// lines. The result is the hole's upper and lower bounds in bytes.
pub open spec fn hole_scan(marks: Seq<u8>, index: int, end: int, count: int, needed: int) -> Option<
    (int, int),
>
    decreases index,
{
    if index <= 0 {
        None
    } else {
        let i = index - 1;
        if marks[i] == FREE {
            if i == 0 && count + 1 >= needed {
                Some((end * LINE_SIZE, 0))
            } else {
                hole_scan(marks, i, end, count + 1, needed)
            }
        } else if count > needed {
            Some((end * LINE_SIZE, (i + 2) * LINE_SIZE))
        } else {
            hole_scan(marks, i, i, 0, needed)
        }
    }
}

/// The first hole for `size` bytes that lies below the line holding
/// `starting_at`, searching downward.
pub open spec fn next_hole(marks: Seq<u8>, starting_at: int, size: int) -> Option<(int, int)> {
    let start = starting_at / LINE_SIZE as int;
    hole_scan(marks, start, start, 0, lines_for(size))
}

/// `[l, c)` is a line-aligned run of free lines below `bound`, with room
/// for `needed` lines.
pub open spec fn is_hole(marks: Seq<u8>, bound: int, needed: int, c: int, l: int) -> bool {
    &&& c % LINE_SIZE as int == 0
    &&& l % LINE_SIZE as int == 0
    &&& 0 <= l
    &&& c <= bound
    &&& c - l >= needed * LINE_SIZE
    &&& forall|j: int| l / LINE_SIZE as int <= j < c / LINE_SIZE as int ==> marks[j] == FREE
}

/// A raw block used for bump allocation. The payload bytes are
/// `[0, BLOCK_CAPACITY)`; the current hole is `[limit, cursor)`. The id
/// tells blocks of one heap apart.
pub struct BumpBlock {
    block: Block,
    cursor: usize,
    limit: usize,
    id: usize,
}

impl BumpBlock {
    /// The whole block, payload and metadata.
    pub closed spec fn memory(&self) -> Seq<u8> {
        self.block@
    }

    /// The exclusive upper end of the current hole.
    pub closed spec fn cursor(&self) -> int {
        self.cursor as int
    }

    /// The inclusive lower end of the current hole.
    pub closed spec fn limit(&self) -> int {
        self.limit as int
    }

    pub closed spec fn block_id(&self) -> int {
        self.id as int
    }

    /// The line marks, one per line.
    pub open spec fn marks(&self) -> Seq<u8> {
        self.memory().subrange(META_OFFSET as int, META_OFFSET + LINE_COUNT)
    }

    pub open spec fn hole_size(&self) -> int {
        self.cursor() - self.limit()
    }

    /// The block has its full size, the hole lies, aligned, within the
    /// payload bytes, and every line mark is `FREE` or `MARKED`.
    pub open spec fn wf(&self) -> bool {
        &&& self.block_wf()
        &&& self.memory().len() == BLOCK_SIZE
        &&& 0 <= self.limit() <= self.cursor() <= BLOCK_CAPACITY
        &&& self.cursor() % ALIGN as int == 0
        &&& self.limit() % ALIGN as int == 0
        &&& forall|j: int|
            0 <= j < LINE_COUNT ==> #[trigger] self.marks()[j] == FREE || self.marks()[j] == MARKED
    }

    /// Every line mark is `FREE`.
    pub open spec fn marks_clear(&self) -> bool {
        forall|j: int| 0 <= j < LINE_COUNT ==> #[trigger] self.marks()[j] == FREE
    }

    pub closed spec fn block_wf(&self) -> bool {
        self.block.wf()
    }

    /// The state after a successful or failed `inner_alloc(size)` from
    /// `old`, and its result.
    pub open spec fn alloc_post(old: BumpBlock, new: BumpBlock, size: int, r: Option<usize>) -> bool {
        &&& new.memory() == old.memory()
        &&& new.block_id() == old.block_id()
        &&& if fits(old.cursor(), old.limit(), size) {
            &&& r == Some(bump_target(old.cursor(), size) as usize)
            &&& new.cursor() == bump_target(old.cursor(), size)
            &&& new.limit() == old.limit()
        } else {
            match next_hole(old.marks(), old.limit(), size) {
                Some((c, l)) if old.limit() > 0 => {
                    &&& r == Some(bump_target(c, size) as usize)
                    &&& new.cursor() == bump_target(c, size)
                    &&& new.limit() == l
                },
                _ => {
                    &&& r == None::<usize>
                    &&& new == old
                },
            }
        }
    }

    /// A fresh block: all of its payload is one hole and every mark is free.
    pub fn new() -> (r: Result<BumpBlock, AllocError>)
        ensures
            r matches Err(e) ==> e == AllocError::OOM,
            r matches Ok(b) ==> {
                &&& b.wf()
                &&& b.cursor() == BLOCK_CAPACITY
                &&& b.limit() == 0
                &&& b.block_id() == 0
                &&& b.marks_clear()
                &&& forall|i: int| META_OFFSET <= i < BLOCK_SIZE ==> b.memory()[i] == FREE
            },
    {
        proof {
            reveal_with_fuel(crate::block::is_pow2, 16);
        }
        assert(valid_block_size(BLOCK_SIZE as int));
        let block = match Block::new(BLOCK_SIZE) {
            Ok(b) => b,
            Err(e) => {
                return Err(AllocError::from(e));
            },
        };
        let mut bump_block = BumpBlock { block, cursor: BLOCK_CAPACITY, limit: 0, id: 0 };
        bump_block.reset();
        assert forall|j: int| 0 <= j < LINE_COUNT implies #[trigger] bump_block.marks()[j] == FREE by {
            assert(bump_block.marks()[j] == bump_block.memory()[META_OFFSET + j]);
        }
        Ok(bump_block)
    }

    /// Allocates `alloc_size` bytes at the top of the current hole, or, when
    /// the hole is too small, at the top of the next hole below it that is
    /// large enough. Returns the offset of the allocation.
    #[verifier::rlimit(40)]
    pub fn inner_alloc(&mut self, alloc_size: usize) -> (r: Option<usize>)
        requires
            old(self).wf(),
        ensures
            final(self).wf(),
            Self::alloc_post(*old(self), *final(self), alloc_size as int, r),
            r matches Some(p) ==> p == final(self).cursor() && p + alloc_size <= old(self).cursor(),
    {
        let cursor = self.cursor;
        let limit = self.limit;
        if alloc_size <= cursor {
            let next = (cursor - alloc_size) & ALLOC_ALIGN_MASK;
            proof {
                lemma_align_mask((cursor - alloc_size) as usize);
            }
            if next >= limit {
                self.cursor = next;
                assert(self.marks() == old(self).marks());
                return Some(next);
            }
        }
        if limit > 0 {
            let found = self.find_next_available_hole(limit, alloc_size);
            if let Some((c, l)) = found {
                proof {
                    let start = limit as int / LINE_SIZE as int;
                    lemma_hole_scan(self.marks(), start, start, 0, lines_for(alloc_size as int));
                    lemma_lines_cover(alloc_size as int);
                    lemma_align_mask((c - alloc_size) as usize);
                    assert((start * 128) <= limit) by (nonlinear_arith)
                        requires start == limit as int / 128, limit >= 0;
                }
                let next = (c - alloc_size) & ALLOC_ALIGN_MASK;
                self.cursor = next;
                self.limit = l;
                assert(self.marks() == old(self).marks());
                return Some(next);
            }
        }
        None
    }

    /// Searches the line marks downward from the line holding `starting_at`
    /// for a hole of at least `alloc_size` bytes, and returns its upper and
    /// lower bounds.
    pub fn find_next_available_hole(&self, starting_at: usize, alloc_size: usize) -> (r: Option<
        (usize, usize),
    >)
        requires
            self.wf(),
            starting_at <= BLOCK_CAPACITY,
        ensures
            r matches Some(h) ==> next_hole(self.marks(), starting_at as int, alloc_size as int)
                == Some((h.0 as int, h.1 as int)),
            r is None ==> next_hole(self.marks(), starting_at as int, alloc_size as int) is None,
            is_highest_hole(
                self.marks(),
                starting_at as int,
                alloc_size as int,
                match r {
                    Some(h) => Some((h.0 as int, h.1 as int)),
                    None => None,
                },
            ),
            r matches Some(h) ==> is_hole(
                self.marks(),
                starting_at as int,
                lines_for(alloc_size as int),
                h.0 as int,
                h.1 as int,
            ),
    {
        let ghost marks = self.marks();
        let starting_line = starting_at / LINE_SIZE;
        let lines_required = alloc_size / LINE_SIZE + if alloc_size % LINE_SIZE == 0 {
            0
        } else {
            1
        };
        assert(lines_required == lines_for(alloc_size as int));
        let ghost target = hole_scan(marks, starting_line as int, starting_line as int, 0, lines_required as int);
        assert(target == next_hole(marks, starting_at as int, alloc_size as int));
        proof {
            lemma_next_hole_is_highest(marks, starting_at as int, alloc_size as int);
            lemma_hole_scan(marks, starting_line as int, starting_line as int, 0, lines_required as int);
            assert((starting_line * 128) <= starting_at) by (nonlinear_arith)
                requires starting_line == starting_at as int / 128, starting_at >= 0;
            if target is Some {
                let h = target->0;
                assert(is_hole(marks, starting_line * LINE_SIZE, lines_required as int, h.0, h.1));
                assert(is_hole(marks, starting_at as int, lines_required as int, h.0, h.1));
            }
        }
        let mut count: usize = 0;
        let mut end: usize = starting_line;
        let mut index: usize = starting_line;
        while index > 0
            invariant
                self.wf(),
                marks == self.marks(),
                target == next_hole(marks, starting_at as int, alloc_size as int),
                is_highest_hole(marks, starting_at as int, alloc_size as int, target),
                lines_required == lines_for(alloc_size as int),
                target matches Some(h) ==> is_hole(marks, starting_at as int, lines_required as int, h.0, h.1),
                starting_line <= LINE_COUNT,
                index <= end <= starting_line,
                count == end - index,
                hole_scan(marks, index as int, end as int, count as int, lines_required as int)
                    == target,
            decreases index,
        {
            let i = index - 1;
            let marked = self.block.read(META_OFFSET + i);
            assert(marked == marks[i as int]);
            if marked == FREE {
                count = count + 1;
                if i == 0 && count >= lines_required {
                    assert(hole_scan(marks, index as int, end as int, count - 1, lines_required as int)
                        == Some(((end * LINE_SIZE) as int, 0int)));
                    return Some((end * LINE_SIZE, 0));
                }
            } else {
                if count > lines_required {
                    assert(hole_scan(marks, index as int, end as int, count as int, lines_required as int)
                        == Some(((end * LINE_SIZE) as int, ((i + 2) * LINE_SIZE) as int)));
                    return Some((end * LINE_SIZE, (i + 2) * LINE_SIZE));
                }
                count = 0;
                end = i;
            }
            index = i;
        }
        None
    }

    /// Marks line `line_num` as holding something live.
    pub fn mark_line(&mut self, line_num: usize)
        requires
            old(self).wf(),
            line_num < LINE_COUNT,
        ensures
            final(self).wf(),
            final(self).memory() == old(self).memory().update(META_OFFSET + line_num, MARKED),
            final(self).block_id() == old(self).block_id(),
            final(self).marks() == old(self).marks().update(line_num as int, MARKED),
            final(self).cursor() == old(self).cursor(),
            final(self).limit() == old(self).limit(),
    {
        self.block.write(META_OFFSET + line_num, MARKED);
        assert(self.marks() =~= old(self).marks().update(line_num as int, MARKED));
        assert forall|j: int| 0 <= j < LINE_COUNT implies #[trigger] self.marks()[j] == FREE
            || self.marks()[j] == MARKED by {
            if j != line_num {
                assert(self.marks()[j] == old(self).marks()[j]);
            }
        }
    }

    /// Marks the whole block as holding something live.
    pub fn mark_block(&mut self)
        requires
            old(self).wf(),
        ensures
            final(self).wf(),
            final(self).memory() == old(self).memory().update(BLOCK_SIZE - 1, MARKED),
            final(self).marks() == old(self).marks(),
            final(self).block_id() == old(self).block_id(),
            final(self).cursor() == old(self).cursor(),
            final(self).limit() == old(self).limit(),
    {
        self.block.write(BLOCK_SIZE - 1, MARKED);
        assert(self.marks() =~= old(self).marks());
    }

    /// Makes the whole payload one hole again and clears every mark,
    /// the block mark included.
    pub fn reset(&mut self)
        requires
            old(self).block_wf(),
            old(self).memory().len() == BLOCK_SIZE,
        ensures
            final(self).wf(),
            final(self).marks_clear(),
            final(self).cursor() == BLOCK_CAPACITY,
            final(self).limit() == 0,
            final(self).block_id() == old(self).block_id(),
            forall|i: int| 0 <= i < META_OFFSET ==> final(self).memory()[i] == old(self).memory()[i],
            forall|i: int| META_OFFSET <= i < BLOCK_SIZE ==> final(self).memory()[i] == FREE,
    {
        self.limit = 0;
        self.cursor = BLOCK_CAPACITY;
        let mut i: usize = 0;
        while i < BLOCK_SIZE - META_OFFSET
            invariant
                self.block_wf(),
                self.memory().len() == BLOCK_SIZE,
                self.cursor == BLOCK_CAPACITY,
                self.limit == 0,
                self.id == old(self).id,
                i <= BLOCK_SIZE - META_OFFSET,
                forall|j: int| 0 <= j < META_OFFSET ==> self.memory()[j] == old(self).memory()[j],
                forall|j: int| META_OFFSET <= j < META_OFFSET + i ==> self.memory()[j] == FREE,
            decreases BLOCK_SIZE - META_OFFSET - i,
        {
            self.block.write(META_OFFSET + i, FREE);
            i = i + 1;
        }
        assert forall|j: int| 0 <= j < LINE_COUNT implies #[trigger] self.marks()[j] == FREE by {
            assert(self.marks()[j] == self.memory()[META_OFFSET + j]);
        }
    }

    /// Sets the `len` bytes from `offset` to zero.
    pub fn zero(&mut self, offset: usize, len: usize)
        requires
            old(self).wf(),
            offset + len <= BLOCK_CAPACITY,
        ensures
            final(self).wf(),
            final(self).cursor() == old(self).cursor(),
            final(self).limit() == old(self).limit(),
            final(self).block_id() == old(self).block_id(),
            final(self).marks() == old(self).marks(),
            forall|i: int|
                offset <= i < offset + len ==> final(self).memory()[i] == 0,
            forall|i: int|
                0 <= i < BLOCK_SIZE && !(offset <= i < offset + len) ==> final(self).memory()[i]
                    == old(self).memory()[i],
    {
        let mut k: usize = 0;
        while k < len
            invariant
                self.wf(),
                offset + len <= BLOCK_CAPACITY,
                self.cursor == old(self).cursor,
                self.limit == old(self).limit,
                self.id == old(self).id,
                self.marks() == old(self).marks(),
                k <= len,
                forall|i: int| offset <= i < offset + k ==> self.memory()[i] == 0,
                forall|i: int|
                    0 <= i < BLOCK_SIZE && !(offset <= i < offset + k) ==> self.memory()[i]
                        == old(self).memory()[i],
            decreases len - k,
        {
            let ghost before = self.marks();
            self.block.write(offset + k, 0);
            assert(self.marks() =~= before);
            k = k + 1;
        }
    }

    /// The byte at `offset` in the block.
    pub fn read(&self, offset: usize) -> (r: u8)
        requires
            self.wf(),
            offset < BLOCK_SIZE,
        ensures
            r == self.memory()[offset as int],
    {
        self.block.read(offset)
    }

    /// The block's id.
    pub fn id(&self) -> (r: usize)
        ensures
            r == self.block_id(),
    {
        self.id
    }

    /// Gives the block the id `id`.
    pub fn set_id(&mut self, id: usize)
        requires
            old(self).wf(),
        ensures
            final(self).wf(),
            final(self).block_id() == id,
            final(self).memory() == old(self).memory(),
            final(self).cursor() == old(self).cursor(),
            final(self).limit() == old(self).limit(),
    {
        self.id = id;
        assert(self.marks() == old(self).marks());
    }

    /// Bytes left in the current hole.
    pub fn current_hole_size(&self) -> (r: usize)
        requires
            self.wf(),
        ensures
            r == self.hole_size(),
    {
        self.cursor - self.limit
    }
}

/// In a block whose hole reaches down to its base, as in every block made
/// by `new` or `reset` and then only allocated from, a successful
/// allocation takes exactly its size, rounded up to `ALIGN`, from the hole,
/// and the hole still reaches down to the base.
pub proof fn lemma_alloc_shrinks_hole(old: BumpBlock, new: BumpBlock, size: int, r: Option<usize>)
    requires
        old.wf(),
        old.limit() == 0,
        0 <= size,
        BumpBlock::alloc_post(old, new, size, r),
        r is Some,
    ensures
        new.hole_size() == old.hole_size() - padded(size),
        new.limit() == 0,
{
    let c = old.cursor();
    assert(fits(c, old.limit(), size));
    assert(c - align_down(c - size) == padded(size)) by {
        assert(c % 8 == 0);
        assert((c - size) % 8 == (8 - size % 8) % 8) by (nonlinear_arith)
            requires c % 8 == 0, c >= size, size >= 0;
    }
}

/// Lines `[lo, hi)` below line `start` are a maximal run of free lines:
/// each end meets a marked line, line 0, or `start`.
pub open spec fn is_run(marks: Seq<u8>, start: int, lo: int, hi: int) -> bool {
    &&& 0 <= lo <= hi <= start
    &&& forall|j: int| lo <= j < hi ==> marks[j] == FREE
    &&& (hi == start || marks[hi] != FREE)
    &&& (lo == 0 || marks[lo - 1] != FREE)
}

/// The run `[lo, hi)` holds `needed` lines: a run that starts at line 0
/// needs no buffer; one above a marked line keeps its lowest line free as
/// a buffer and so needs one line more.
pub open spec fn run_fits(lo: int, hi: int, needed: int) -> bool {
    (lo == 0 && hi > 0 && hi >= needed) || (lo > 0 && hi - lo > needed)
}

/// The hole made of the run `[lo, hi)`: its upper and lower bounds in bytes.
pub open spec fn run_hole(lo: int, hi: int) -> (int, int) {
    (hi * LINE_SIZE, if lo == 0 { 0 } else { (lo + 1) * LINE_SIZE })
}

pub open spec fn no_fitting_run_above(marks: Seq<u8>, start: int, needed: int, end: int) -> bool {
    forall|lo: int, hi: int|
        #![trigger is_run(marks, start, lo, hi)]
        is_run(marks, start, lo, hi) && run_fits(lo, hi, needed) ==> hi <= end
}

/// `h` is the hole made of the highest run of free lines below the line
/// holding `starting_at` that holds `size` bytes, or `None` when no run
/// does.
pub open spec fn is_highest_hole(marks: Seq<u8>, starting_at: int, size: int, h: Option<(int, int)>) -> bool {
    let start = starting_at / LINE_SIZE as int;
    let needed = lines_for(size);
    &&& h matches Some(hole) ==> exists|lo: int, hi: int|
        #![trigger is_run(marks, start, lo, hi)]
        is_run(marks, start, lo, hi) && run_fits(lo, hi, needed) && hole == run_hole(lo, hi)
            && no_fitting_run_above(marks, start, needed, hi)
    &&& h is None ==> forall|lo: int, hi: int|
        #![trigger is_run(marks, start, lo, hi)]
        !(is_run(marks, start, lo, hi) && run_fits(lo, hi, needed))
}

/// The hole search finds the highest run of free lines below `starting_at`
/// that holds the allocation, and finds nothing when no run does.
pub proof fn lemma_next_hole_is_highest(marks: Seq<u8>, starting_at: int, size: int)
    requires
        marks.len() == LINE_COUNT,
        0 <= starting_at <= BLOCK_CAPACITY,
        0 <= size,
    ensures
        is_highest_hole(marks, starting_at, size, next_hole(marks, starting_at, size)),
{
    let start = starting_at / LINE_SIZE as int;
    let needed = lines_for(size);
    assert(start <= LINE_COUNT);
    lemma_scan_is_highest(marks, start, start, start, 0, needed);
}

proof fn lemma_scan_is_highest(marks: Seq<u8>, start: int, index: int, end: int, count: int, needed: int)
    requires
        0 <= index <= end <= start <= marks.len(),
        count == end - index,
        forall|j: int| index <= j < end ==> marks[j] == FREE,
        end == start || marks[end] != FREE,
        index == 0 ==> end == 0 || end < needed,
        no_fitting_run_above(marks, start, needed, end),
    ensures
        hole_scan(marks, index, end, count, needed) matches Some(h) ==> exists|lo: int, hi: int|
            #![trigger is_run(marks, start, lo, hi)]
            is_run(marks, start, lo, hi) && run_fits(lo, hi, needed) && h == run_hole(lo, hi)
                && no_fitting_run_above(marks, start, needed, hi),
        hole_scan(marks, index, end, count, needed) is None ==> forall|lo: int, hi: int|
            #![trigger is_run(marks, start, lo, hi)]
            !(is_run(marks, start, lo, hi) && run_fits(lo, hi, needed)),
    decreases index,
{
    if index == 0 {
        assert forall|lo: int, hi: int| #![trigger is_run(marks, start, lo, hi)]
            !(is_run(marks, start, lo, hi) && run_fits(lo, hi, needed)) by {
            if is_run(marks, start, lo, hi) && run_fits(lo, hi, needed) {
                assert(hi <= end);
                if hi < end {
                    assert(marks[hi] == FREE);
                } else if lo > 0 {
                    assert(marks[lo - 1] == FREE);
                }
            }
        }
    } else {
        let i = index - 1;
        if marks[i] == FREE {
            if i == 0 && count + 1 >= needed {
                assert(is_run(marks, start, 0, end));
            } else {
                lemma_scan_is_highest(marks, start, i, end, count + 1, needed);
            }
        } else if count > needed {
            assert(is_run(marks, start, i + 1, end));
        } else {
            assert forall|lo: int, hi: int| #![trigger is_run(marks, start, lo, hi)]
                is_run(marks, start, lo, hi) && run_fits(lo, hi, needed) implies hi <= i by {
                if hi > i && hi <= end {
                    if hi < end {
                        assert(marks[hi] == FREE);
                    } else if lo <= i {
                        assert(marks[i] == FREE);
                    } else if lo > i + 1 {
                        assert(marks[lo - 1] == FREE);
                    }
                }
            }
            lemma_scan_is_highest(marks, start, i, i, 0, needed);
        }
    }
}

/// Allocations from one block never overlap: an allocation made after one
/// that starts at `p1` (the cursor it left) ends at or below `p1`.
pub proof fn lemma_next_alloc_below(b1: BumpBlock, b2: BumpBlock, size: int, p1: int, p2: usize)
    requires
        b1.wf(),
        b1.cursor() == p1,
        0 <= size,
        BumpBlock::alloc_post(b1, b2, size, Some(p2)),
    ensures
        p2 + size <= p1,
{
    if !fits(b1.cursor(), b1.limit(), size) {
        let start = b1.limit() / LINE_SIZE as int;
        lemma_hole_scan(b1.marks(), start, start, 0, lines_for(size));
        lemma_lines_cover(size);
        assert(start * 128 <= b1.limit()) by (nonlinear_arith)
            requires start == b1.limit() / 128, b1.limit() >= 0;
    }
}

/// Masking with `ALLOC_ALIGN_MASK` rounds down to a multiple of `ALIGN`.
pub proof fn lemma_align_mask(x: usize)
    ensures
        (x & ALLOC_ALIGN_MASK) == align_down(x as int),
        (x & ALLOC_ALIGN_MASK) <= x,
        (x & ALLOC_ALIGN_MASK) % ALIGN == 0,
{
    assert((x & !7usize) == x - x % 8 && (x & !7usize) % 8 == 0) by (bit_vector);
}

/// `lines_for(size)` lines hold `size` bytes.
proof fn lemma_lines_cover(size: int)
    requires
        size >= 0,
    ensures
        lines_for(size) * LINE_SIZE >= size,
        lines_for(size) >= 0,
{
    assert(((size + 127) / 128) * 128 >= size) by (nonlinear_arith)
        requires size >= 0;
}

/// A hole found by the scan is line-aligned, lies below the line the scan
/// started from, is made of free lines, and has at least `needed` lines.
pub proof fn lemma_hole_scan(marks: Seq<u8>, index: int, end: int, count: int, needed: int)
    requires
        0 <= index <= end <= marks.len(),
        count == end - index,
        needed >= 0,
        forall|j: int| index <= j < end ==> marks[j] == FREE,
    ensures
        hole_scan(marks, index, end, count, needed) matches Some((c, l)) ==> is_hole(
            marks,
            end * LINE_SIZE,
            needed,
            c,
            l,
        ),
    decreases index,
{
    if index > 0 {
        let i = index - 1;
        if marks[i] == FREE {
            if !(i == 0 && count + 1 >= needed) {
                lemma_hole_scan(marks, i, end, count + 1, needed);
            } else {
                assert((end * 128) % 128 == 0) by (nonlinear_arith);
                assert((end * 128) / 128 == end) by (nonlinear_arith);
                assert(end * 128 >= needed * 128) by (nonlinear_arith)
                    requires end >= needed;
            }
        } else if count > needed {
            assert((end * 128) % 128 == 0) by (nonlinear_arith);
            assert((end * 128) / 128 == end) by (nonlinear_arith);
            assert(((i + 2) * 128) % 128 == 0) by (nonlinear_arith);
            assert(((i + 2) * 128) / 128 == i + 2) by (nonlinear_arith);
            assert(end * 128 - (i + 2) * 128 >= needed * 128) by (nonlinear_arith)
                requires end - (i + 2) >= needed;
        } else {
            lemma_hole_scan(marks, i, i, 0, needed);
            assert(i * 128 <= end * 128) by (nonlinear_arith)
                requires i <= end;
        }
    }
}

} // verus!
