use rmapbash::blockstates::{index_fits, pack_block_states, unpack_block_states};

fn states_indices(bits: u8, seed: u32) -> Vec<u16> {
    let mut state = seed;
    (0..4096)
        .map(|_| {
            state = state.wrapping_mul(1_103_515_245).wrapping_add(12_345);
            ((state >> 8) & ((1u32 << bits) - 1)) as u16
        })
        .collect()
}

#[test]
fn pack_then_unpack_gives_the_indices_back() {
    for bits in 4u8..=12 {
        let indices = states_indices(bits, 7 + bits as u32);
        let states = pack_block_states(&indices, bits);
        assert_eq!(states.len(), 64 * bits as usize);
        assert_eq!(unpack_block_states(&states), Some(indices));
    }
}

#[test]
fn pack_then_unpack_at_the_narrowest_and_widest() {
    for bits in [1u8, 2, 3, 13, 14, 15, 16] {
        let indices = states_indices(bits, 99);
        let states = pack_block_states(&indices, bits);
        assert_eq!(unpack_block_states(&states), Some(indices));
    }
}

#[test]
fn first_voxel_lies_in_the_lowest_bits_of_the_first_long() {
    let mut indices = vec![0u16; 4096];
    indices[0] = 0b1011;
    indices[1] = 0b0110;
    indices[16] = 0b1111;
    indices[4095] = 0b1001;
    let states = pack_block_states(&indices, 4);
    assert_eq!(states.len(), 256);
    assert_eq!(states[0], 0x6b);
    assert_eq!(states[1], 0xf);
    assert_eq!(states[255], 0x9000_0000_0000_0000);
}

#[test]
fn index_runs_over_into_the_next_long() {
    // With 5 bits a voxel, voxel 12 holds bits 60 to 64 of the stream.
    let mut indices = vec![0u16; 4096];
    indices[12] = 0b10101;
    let states = pack_block_states(&indices, 5);
    assert_eq!(states[0], 0b0101u64 << 60);
    assert_eq!(states[1], 1);
    assert_eq!(unpack_block_states(&states).unwrap()[12], 0b10101);
}

#[test]
fn unpack_reads_known_states() {
    let mut states = vec![0u64; 256];
    states[0] = 0x0000_0000_0000_0321;
    states[255] = 0xf000_0000_0000_0000;
    let indices = unpack_block_states(&states).unwrap();
    assert_eq!(indices.len(), 4096);
    assert_eq!(indices[0], 1);
    assert_eq!(indices[1], 2);
    assert_eq!(indices[2], 3);
    assert_eq!(indices[3], 0);
    assert_eq!(indices[4095], 15);
}

#[test]
fn unpack_without_bits_gives_the_first_palette_entry() {
    let indices = unpack_block_states(&vec![0xffff_ffff_ffff_ffff; 63]).unwrap();
    assert_eq!(indices, vec![0u16; 4096]);
}

#[test]
fn unpack_refuses_more_than_sixteen_bits() {
    assert!(unpack_block_states(&vec![0u64; 64 * 17]).is_none());
    assert!(unpack_block_states(&vec![0u64; 64 * 16]).is_some());
}

#[test]
fn index_fits_in_its_width() {
    assert!(index_fits(15, 4));
    assert!(!index_fits(16, 4));
    assert!(index_fits(0xffff, 16));
    assert!(index_fits(0, 0));
    assert!(!index_fits(1, 0));
}
