use zap_heap::{Block, BlockError};

#[test]
fn new_block() {
    let result = Block::new(1024).unwrap();

    assert!(result.size() == 1024);
}

#[test]
fn bad_request() {
    let result = Block::new(3);

    assert!(result.err().unwrap() == BlockError::BadRequest);
}

#[test]
fn block_size_must_be_power_of_2() {
    let size: usize = 2;

    for i in 1..25 {
        let result = Block::new(size.pow(i)).unwrap();

        assert!(result.size() == size.pow(i));
    }
}

#[test]
fn zero_size_is_bad_request() {
    assert!(Block::new(0).err().unwrap() == BlockError::BadRequest);
}

#[test]
fn size_above_layout_limit_is_bad_request() {
    assert!(Block::new(1usize << 63).err().unwrap() == BlockError::BadRequest);
}

#[test]
fn block_bytes_match_size() {
    let block = Block::new(4096).unwrap();

    assert_eq!(block.as_ptr().len(), 4096);
    assert_eq!(block.into_mut_ptr().len(), 4096);
}

#[test]
fn block_from_raw_parts_keeps_bytes() {
    let block = Block::from_raw_parts(vec![7u8; 16], 16);

    assert_eq!(block.size(), 16);
    assert_eq!(block.read(5), 7);
}
