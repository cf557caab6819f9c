use array2b::block::Array2b;

fn filled_4x4() -> Array2b<u64> {
    let values: Vec<u64> = (0..16).collect();
    Array2b::from_row_major(4, 4, 2, values)
}

#[test]
fn get_returns_every_in_range_element() {
    let a = filled_4x4();
    for row in 0..4 {
        for col in 0..4 {
            assert_eq!(*a.get(row, col).unwrap(), (row * 4 + col) as u64);
        }
    }
}

#[test]
fn get_out_of_range_is_none() {
    let a = filled_4x4();
    assert!(a.get(4, 0).is_none());
    assert!(a.get(0, 4).is_none());
    assert!(a.get(4, 4).is_none());
    assert!(a.get(17, 1).is_none());
}

#[test]
fn get_mut_out_of_range_is_none() {
    let mut a = filled_4x4();
    assert!(a.get_mut(4, 0).is_none());
    assert!(a.get_mut(0, 4).is_none());
}

#[test]
fn get_mut_reads_and_writes_the_element() {
    let mut a = filled_4x4();
    {
        let slot = a.get_mut(2, 3).unwrap();
        assert_eq!(*slot, 11);
        *slot = 99;
    }
    assert_eq!(*a.get(2, 3).unwrap(), 99);
    // the other elements are untouched
    for row in 0..4 {
        for col in 0..4 {
            if (row, col) != (2, 3) {
                assert_eq!(*a.get(row, col).unwrap(), (row * 4 + col) as u64);
            }
        }
    }
}

#[test]
fn get_index_follows_the_block_tiled_formula() {
    let a = filled_4x4();
    // col * blocksize + (row / blocksize) * (blocksize * height) + row % blocksize
    assert_eq!(a.get_index(0, 0), Some(0));
    assert_eq!(a.get_index(1, 0), Some(1));
    assert_eq!(a.get_index(0, 1), Some(2));
    assert_eq!(a.get_index(1, 1), Some(3));
    assert_eq!(a.get_index(0, 2), Some(4));
    assert_eq!(a.get_index(2, 0), Some(8));
    assert_eq!(a.get_index(3, 3), Some(15));
    assert_eq!(a.get_index(4, 0), None);
    assert_eq!(a.get_index(0, 4), None);
}

#[test]
fn iter_emits_one_tile_before_the_next() {
    // A 4x4 single-channel array filled 0..15 row-major with blocksize 2:
    // the four elements of the top-left 2x2 tile come out before any other
    // tile's, and the coordinates of value 4 are recovered as (1, 0).
    let a = filled_4x4();
    let triples = a.iter();
    assert_eq!(triples.len(), 16);
    let mut first_tile: Vec<u64> = triples[0..4].iter().map(|t| t.2).collect();
    first_tile.sort();
    assert_eq!(first_tile, vec![0, 1, 4, 5]);
    let four = triples.iter().find(|t| t.2 == 4).unwrap();
    assert_eq!((four.0, four.1), (1, 0));
    // the exact physical order of the first tile
    assert_eq!(triples[0], (0, 0, 0));
    assert_eq!(triples[1], (1, 0, 4));
    assert_eq!(triples[2], (0, 1, 1));
    assert_eq!(triples[3], (1, 1, 5));
}

#[test]
fn iter_coordinates_agree_with_get() {
    let a = filled_4x4();
    let mut seen = [false; 16];
    for (row, col, value) in a.iter() {
        assert_eq!(*a.get(row, col).unwrap(), value);
        assert!(!seen[(row * 4 + col) as usize]);
        seen[(row * 4 + col) as usize] = true;
    }
    assert!(seen.iter().all(|s| *s));
}

#[test]
fn new_fills_every_element() {
    let a: Array2b<u32> = Array2b::new(6, 6, 3, 7);
    for row in 0..6 {
        for col in 0..6 {
            assert_eq!(*a.get(row, col).unwrap(), 7);
        }
    }
    assert!(a.get(6, 0).is_none());
}

#[test]
fn new16k_block_derives_the_band_size_from_the_element_size() {
    // for u64 the tile budget gives blocksize 44: 44 * 44 * 8 = 15488 <= 16000
    let a: Array2b<u64> = Array2b::new16k_block(44, 44, 5);
    for row in 0..44 {
        for col in 0..44 {
            assert_eq!(*a.get(row, col).unwrap(), 5);
        }
    }
}

#[test]
fn from_row_major_16k_block_keeps_the_grid() {
    let values: Vec<u64> = (0..44 * 44).collect();
    let a = Array2b::from_row_major_16k_block(44, 44, values);
    for row in 0..44 {
        for col in 0..44 {
            assert_eq!(*a.get(row, col).unwrap(), (row * 44 + col) as u64);
        }
    }
}
