use anvil_reader::grid::{bits_per_entry, decode_grid, unpack_palette_grid, word, UnpackError};

#[test]
fn scenario_unpack_four_bits() {
    let longs = [0x0000_0000_7654_3210i64];
    let grid = unpack_palette_grid(4, 16, 8, &longs).unwrap();
    assert_eq!(grid, vec![0, 1, 2, 3, 4, 5, 6, 7, 0, 0, 0, 0, 0, 0, 0, 0]);
}

#[test]
fn scenario_single_entry_palette_without_data() {
    let grid = decode_grid(1, 4096, 4, None).unwrap();
    assert_eq!(grid.len(), 4096);
    assert!(grid.iter().all(|&v| v == 0));
}

#[test]
fn single_entry_palette_ignores_data() {
    let longs = [-1i64; 256];
    let grid = decode_grid(1, 4096, 4, Some(&longs)).unwrap();
    assert_eq!(grid.len(), 4096);
    assert!(grid.iter().all(|&v| v == 0));
    let biomes = decode_grid(1, 64, 1, None).unwrap();
    assert_eq!(biomes, vec![0u32; 64]);
}

#[test]
fn entries_fill_whole_long_without_padding() {
    // B = 4: sixteen entries per long, the top four bits are entry 15.
    let longs = [0xF000_0000_0000_0001u64 as i64];
    let grid = unpack_palette_grid(4, 16, 16, &longs).unwrap();
    assert_eq!(grid[0], 1);
    assert_eq!(grid[15], 15);
    assert!(grid[1..15].iter().all(|&v| v == 0));
}

#[test]
fn padding_bits_are_ignored() {
    // B = 5: twelve entries per long, four padding bits on top.
    let longs = [(0xFu64 << 60 | 0b00011) as i64, 2];
    let grid = unpack_palette_grid(5, 13, 4, &longs).unwrap();
    assert_eq!(grid.len(), 13);
    assert_eq!(grid[0], 3);
    assert!(grid[1..12].iter().all(|&v| v == 0));
    assert_eq!(grid[12], 2);
}

#[test]
fn unpack_produces_cell_count_entries_in_palette() {
    let longs: Vec<i64> = (0..64i64).map(|i| i.wrapping_mul(0x0123_4567_89AB_CDEF)).collect();
    let grid = unpack_palette_grid(8, 512, 256, &longs).unwrap();
    assert_eq!(grid.len(), 512);
    assert!(grid.iter().all(|&v| v < 256));
}

#[test]
fn insufficient_packed_data() {
    let longs = [0i64; 3];
    assert_eq!(unpack_palette_grid(4, 64, 16, &longs), Err(UnpackError::InsufficientPackedData));
    assert_eq!(decode_grid(2, 64, 1, None), Err(UnpackError::InsufficientPackedData));
}

#[test]
fn palette_index_out_of_range() {
    let longs = [0x0000_0000_0000_0510i64];
    assert_eq!(
        unpack_palette_grid(4, 16, 5, &longs),
        Err(UnpackError::PaletteIndexOutOfRange { cell: 2, index: 5 })
    );
}

#[test]
fn bad_bits_per_entry() {
    assert_eq!(unpack_palette_grid(0, 16, 5, &[0]), Err(UnpackError::BadBitsPerEntry));
    assert_eq!(unpack_palette_grid(33, 1, 5, &[0]), Err(UnpackError::BadBitsPerEntry));
}

#[test]
fn bits_per_entry_rules() {
    assert_eq!(bits_per_entry(1, 4), 4);
    assert_eq!(bits_per_entry(16, 4), 4);
    assert_eq!(bits_per_entry(17, 4), 5);
    assert_eq!(bits_per_entry(4096, 4), 12);
    assert_eq!(bits_per_entry(2, 1), 1);
    assert_eq!(bits_per_entry(3, 1), 2);
    assert_eq!(bits_per_entry(64, 1), 6);
}

#[test]
fn decode_grid_uses_palette_width() {
    // 17 entries: five bits each, twelve per long.
    let longs = [0b10000_00001i64, 0, 0];
    let grid = decode_grid(17, 30, 4, Some(&longs)).unwrap();
    assert_eq!(grid[0], 1);
    assert_eq!(grid[1], 16);
    assert_eq!(grid.len(), 30);
}

#[test]
fn word_is_twos_complement() {
    assert_eq!(word(-1), u64::MAX);
    assert_eq!(word(i64::MIN), 0x8000_0000_0000_0000);
    assert_eq!(word(5), 5);
}
