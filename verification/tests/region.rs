use std::collections::HashMap;

use h3_raster::region::{grow_region_starting_with_index, in_tile_neighbors};
use h3_raster::tile::{array_position_to_pixel, pixel_to_array_position};

#[test]
fn test_grow_region_starting_with_index() {
    let indata: Vec<usize> = vec![
        0, 0, 0, 0, 0, 0, 0, 1, 0, 0,
        0, 0, 0, 0, 0, 0, 1, 1, 1, 0,
        0, 1, 1, 1, 1, 1, 0, 1, 0, 0,
        1, 1, 0, 0, 0, 0, 0, 0, 0, 1, // last one should not be found
    ];
    let inmap: HashMap<_, _> = indata
        .iter()
        .enumerate()
        .filter(|(_, v)| **v != 0_usize)
        .collect();
    let tile_size = (10, 4);
    let start_index = pixel_to_array_position((7, 0), tile_size);
    let positions = grow_region_starting_with_index(&inmap, start_index, tile_size);
    assert_eq!(positions.len(), 12);
    positions
        .iter()
        .for_each(|p| assert_eq!(inmap.get(p), Some(&&1_usize)))
}

#[test]
fn grow_region_excludes_the_isolated_pixel() {
    let occupied: HashMap<usize, ()> = [7, 16, 17, 18, 21, 22, 23, 24, 25, 27, 30, 31, 39]
        .iter()
        .map(|p| (*p, ()))
        .collect();
    let cluster = grow_region_starting_with_index(&occupied, 7, (10, 4));
    assert!(!cluster.contains(&39));
    assert!(cluster.contains(&30));
    let lonely = grow_region_starting_with_index(&occupied, 39, (10, 4));
    assert_eq!(lonely.len(), 1);
    assert!(lonely.contains(&39));
}

#[test]
fn grow_region_from_free_seed_is_empty() {
    let occupied: HashMap<usize, u8> = [(0, 1), (1, 1)].into_iter().collect();
    let cluster = grow_region_starting_with_index(&occupied, 5, (3, 3));
    assert!(cluster.is_empty());
}

#[test]
fn grow_region_does_not_wrap_around_row_ends() {
    // 3 x 2 tile: position 2 ends the first row, position 3 starts the second.
    let occupied: HashMap<usize, ()> = [(2, ()), (3, ())].into_iter().collect();
    let cluster = grow_region_starting_with_index(&occupied, 2, (3, 2));
    assert_eq!(cluster.len(), 1);
    assert!(cluster.contains(&2));
}

#[test]
fn grow_region_twice_gives_equal_sets() {
    let occupied: HashMap<usize, ()> = [0, 1, 4, 8, 7].iter().map(|p| (*p, ())).collect();
    let first = grow_region_starting_with_index(&occupied, 0, (3, 3));
    let second = grow_region_starting_with_index(&occupied, 0, (3, 3));
    assert_eq!(first, second);
    let within: HashMap<usize, ()> = first.iter().map(|p| (*p, ())).collect();
    let again = grow_region_starting_with_index(&within, 0, (3, 3));
    assert_eq!(first, again);
}

#[test]
fn corner_neighbors_stay_within_the_tile() {
    let mut top_left = in_tile_neighbors(0, (4, 3));
    top_left.sort_unstable();
    assert_eq!(top_left, vec![0, 1, 4, 5]);
    let mut bottom_right = in_tile_neighbors(11, (4, 3));
    bottom_right.sort_unstable();
    assert_eq!(bottom_right, vec![6, 7, 10, 11]);
    let mut top_right = in_tile_neighbors(3, (4, 3));
    top_right.sort_unstable();
    assert_eq!(top_right, vec![2, 3, 6, 7]);
    let mut bottom_left = in_tile_neighbors(8, (4, 3));
    bottom_left.sort_unstable();
    assert_eq!(bottom_left, vec![4, 5, 8, 9]);
    let mut middle = in_tile_neighbors(5, (4, 3));
    middle.sort_unstable();
    assert_eq!(middle, vec![0, 1, 2, 4, 5, 6, 8, 9, 10]);
}

#[test]
fn array_positions_are_row_major() {
    assert_eq!(pixel_to_array_position((7, 0), (10, 4)), 7);
    assert_eq!(pixel_to_array_position((2, 3), (10, 4)), 32);
    assert_eq!(array_position_to_pixel(32, (10, 4)), (3, 2));
    assert_eq!(array_position_to_pixel(9, (10, 4)), (0, 9));
}
