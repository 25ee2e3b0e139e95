use rmapbash::sizes::{block_pos_in_chunk, block_to_chunk, block_to_region, chunk_to_region};

#[test]
fn floor_division_of_negative_blocks() {
    assert_eq!(block_to_chunk(-1), -1);
    assert_eq!(block_to_chunk(-16), -1);
    assert_eq!(block_to_chunk(-17), -2);
    assert_eq!(block_to_chunk(15), 0);
    assert_eq!(block_to_chunk(16), 1);
    assert_eq!(block_to_region(-1), -1);
    assert_eq!(block_to_region(511), 0);
    assert_eq!(block_to_region(512), 1);
    assert_eq!(chunk_to_region(-33), -2);
}

#[test]
fn position_in_chunk_clamps_to_the_edge() {
    assert_eq!(block_pos_in_chunk(-1, None), 15);
    assert_eq!(block_pos_in_chunk(17, None), 1);
    assert_eq!(block_pos_in_chunk(17, Some(1)), 1);
    assert_eq!(block_pos_in_chunk(17, Some(2)), 0);
    assert_eq!(block_pos_in_chunk(17, Some(0)), 15);
}
