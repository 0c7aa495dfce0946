use zap_heap::constants::{BLOCK_CAPACITY, BLOCK_SIZE, FREE, LINE_COUNT, LINE_SIZE, MARKED, META_OFFSET};
use zap_heap::{AllocError, BlockError, BumpBlock};

use std::mem::size_of;

#[test]
fn test_begins_with_full_capacity() {
    let b = BumpBlock::new().unwrap();

    assert!(b.current_hole_size() == BLOCK_CAPACITY);
}

#[test]
fn test_find_next_hole() {
    let mut block = BumpBlock::new().unwrap();

    block.mark_line(0);
    block.mark_line(1);
    block.mark_line(2);
    block.mark_line(4);
    block.mark_line(10);

    let expect = Some((10 * LINE_SIZE, 6 * LINE_SIZE));

    let got = block.find_next_available_hole(10 * LINE_SIZE, LINE_SIZE);

    println!("test_find_next_hole got {:?} expected {:?}", got, expect);

    assert!(got == expect);
}

#[test]
fn test_find_next_hole_at_line_zero() {
    let mut block = BumpBlock::new().unwrap();

    block.mark_line(3);
    block.mark_line(4);
    block.mark_line(5);

    let expect = Some((3 * LINE_SIZE, 0));

    let got = block.find_next_available_hole(3 * LINE_SIZE, LINE_SIZE);

    println!(
        "test_find_next_hole_at_line_zero got {:?} expected {:?}",
        got, expect
    );

    assert!(got == expect);
}

#[test]
fn test_find_next_hole_at_block_end() {
    let mut block = BumpBlock::new().unwrap();

    let halfway = LINE_COUNT / 2;

    for i in halfway..LINE_COUNT {
        block.mark_line(i);
    }

    let expect = Some((halfway * LINE_SIZE, 0));

    let got = block.find_next_available_hole(BLOCK_CAPACITY, LINE_SIZE);

    println!(
        "test_find_next_hole_at_block_end got {:?} expected {:?}",
        got, expect
    );

    assert!(got == expect);
}

#[test]
fn test_find_hole_all_conservatively_marked() {
    let mut block = BumpBlock::new().unwrap();

    for i in 0..LINE_COUNT {
        if i % 2 == 0 {
            block.mark_line(i);
        }
    }

    let got = block.find_next_available_hole(BLOCK_CAPACITY, LINE_SIZE);

    println!(
        "test_find_hole_all_conservatively_marked got {:?} expected None",
        got
    );

    assert!(got == None);
}

#[test]
fn test_find_entire_block() {
    let block = BumpBlock::new().unwrap();

    let expect = Some((BLOCK_CAPACITY, 0));
    let got = block.find_next_available_hole(BLOCK_CAPACITY, LINE_SIZE);

    println!("test_find_entire_block got {:?} expected {:?}", got, expect);

    assert!(got == expect);
}

#[test]
fn test_alloc_empty_block() {
    let mut block = BumpBlock::new().unwrap();
    let alloc_size = 8;
    let ptr = block.inner_alloc(alloc_size).unwrap();

    assert!(block.current_hole_size() == (BLOCK_CAPACITY - 8));
    assert!(ptr == BLOCK_CAPACITY - 8);
}

#[test]
fn test_block_alloc_aligns_to_usize() {
    let mut block = BumpBlock::new().unwrap();
    let alloc_size = 1;
    let mut ptr = block.inner_alloc(alloc_size).unwrap();

    assert!(block.current_hole_size() == (BLOCK_CAPACITY - size_of::<usize>()));
    assert!(ptr == BLOCK_CAPACITY - size_of::<usize>());

    ptr = block.inner_alloc(alloc_size).unwrap();

    assert!(block.current_hole_size() == (BLOCK_CAPACITY - (size_of::<usize>() * 2)));
    assert!(ptr == BLOCK_CAPACITY - (size_of::<usize>() * 2));
}

#[test]
fn test_alloc_on_full_block() {
    let mut block = BumpBlock::new().unwrap();
    let alloc_size = 128;

    for i in 1..=LINE_COUNT {
        let ptr = block.inner_alloc(alloc_size).unwrap();
        let cursor = i * 128;

        assert!(block.current_hole_size() == (BLOCK_CAPACITY - cursor));
        assert!(ptr == BLOCK_CAPACITY - cursor);
    }

    let ptr = block.inner_alloc(1);
    assert!(ptr.is_none());
}

#[test]
fn test_reset() {
    let mut block = BumpBlock::new().unwrap();

    // take the whole hole, so that cursor and limit meet
    block.inner_alloc(BLOCK_CAPACITY).unwrap();
    assert_eq!(block.current_hole_size(), 0);

    for i in 0..LINE_COUNT {
        block.mark_line(i);
    }

    let ptr = block.inner_alloc(1);
    println!("{:?}", ptr);
    assert!(ptr.is_none());
    block.reset();

    let ptr = block.inner_alloc(1).unwrap();
    assert!(block.current_hole_size() == (BLOCK_CAPACITY - 8));
    assert!(ptr == BLOCK_CAPACITY - 8);
}

#[test]
fn fresh_block_marks_are_free() {
    let block = BumpBlock::new().unwrap();

    for i in META_OFFSET..BLOCK_SIZE {
        assert_eq!(block.read(i), FREE);
    }
}

#[test]
fn mark_line_and_block_set_metadata() {
    let mut block = BumpBlock::new().unwrap();

    block.mark_line(126);
    block.mark_block();

    assert_eq!(block.read(META_OFFSET + 126), MARKED);
    assert_eq!(block.read(BLOCK_SIZE - 1), MARKED);
    assert_eq!(block.read(META_OFFSET + 125), FREE);

    block.reset();
    assert_eq!(block.read(META_OFFSET + 126), FREE);
    assert_eq!(block.read(BLOCK_SIZE - 1), FREE);
}

#[test]
fn alloc_shrinks_hole_by_padded_size() {
    let mut block = BumpBlock::new().unwrap();
    let before = block.current_hole_size();

    let ptr = block.inner_alloc(13).unwrap();

    assert_eq!(block.current_hole_size(), before - 16);
    assert_eq!(ptr % 8, 0);
    assert!(ptr + 13 <= BLOCK_CAPACITY);
}

#[test]
fn full_hole_at_base_has_no_hole_below() {
    let mut block = BumpBlock::new().unwrap();

    // lines 0..=9 free, 10 marked, the rest free
    block.mark_line(10);
    // fill the top hole down to the limit
    block.inner_alloc(BLOCK_CAPACITY).unwrap();
    assert_eq!(block.current_hole_size(), 0);

    // the limit is 0, so no hole below is looked for
    assert!(block.inner_alloc(8).is_none());
}

#[test]
fn alloc_finds_hole_below_limit() {
    let mut block = BumpBlock::new().unwrap();

    block.mark_line(20);
    block.mark_line(5);
    // holes: lines 6..20 (with line 6 kept as buffer) and lines 0..5
    let hole = block.find_next_available_hole(BLOCK_CAPACITY, 128).unwrap();
    assert_eq!(hole, (BLOCK_CAPACITY, 22 * LINE_SIZE));

    let below = block.find_next_available_hole(22 * LINE_SIZE, 128).unwrap();
    assert_eq!(below, (20 * LINE_SIZE, 7 * LINE_SIZE));

    let bottom = block.find_next_available_hole(7 * LINE_SIZE, 128).unwrap();
    assert_eq!(bottom, (5 * LINE_SIZE, 0));
}

#[test]
fn block_error_converts_to_alloc_error() {
    assert_eq!(AllocError::from(BlockError::BadRequest), AllocError::BadRequest);
    assert_eq!(AllocError::from(BlockError::OOM), AllocError::OOM);
}

#[test]
fn upper_half_marked_leaves_lower_half() {
    let mut block = BumpBlock::new().unwrap();

    for i in 64..LINE_COUNT {
        block.mark_line(i);
    }

    let got = block.find_next_available_hole(BLOCK_CAPACITY, 128);
    assert_eq!(got, Some((8192, 0)));
}
