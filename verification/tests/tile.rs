use h3_raster::tile::{generate_tiles, Tile};

#[test]
fn tiles_cover_the_raster_column_by_column() {
    let tiles = generate_tiles((5, 3), (2, 2));
    let expected = vec![
        Tile { offset_origin: (0, 0), size: (2, 2) },
        Tile { offset_origin: (0, 2), size: (2, 1) },
        Tile { offset_origin: (2, 0), size: (2, 2) },
        Tile { offset_origin: (2, 2), size: (2, 1) },
        Tile { offset_origin: (4, 0), size: (1, 2) },
        Tile { offset_origin: (4, 2), size: (1, 1) },
    ];
    assert_eq!(tiles, expected);
}

#[test]
fn tiles_tesselate_without_overlap() {
    let size = (1024, 512);
    let tiles = generate_tiles(size, (300, 300));
    assert_eq!(tiles.len(), 4 * 2);
    let mut hits = vec![0u8; size.0 * size.1];
    for tile in tiles.iter() {
        assert!(tile.size.0 > 0 && tile.size.0 <= 300);
        assert!(tile.size.1 > 0 && tile.size.1 <= 300);
        for row in tile.offset_origin.1..tile.offset_origin.1 + tile.size.1 {
            for column in tile.offset_origin.0..tile.offset_origin.0 + tile.size.0 {
                hits[row * size.0 + column] += 1;
            }
        }
    }
    assert!(hits.iter().all(|n| *n == 1));
}

#[test]
fn a_tile_larger_than_the_raster_is_cut_to_it() {
    let tiles = generate_tiles((4, 4), (300, 300));
    assert_eq!(tiles, vec![Tile { offset_origin: (0, 0), size: (4, 4) }]);
}

#[test]
fn an_empty_raster_has_no_tiles() {
    assert!(generate_tiles((0, 7), (3, 3)).is_empty());
    assert!(generate_tiles((7, 0), (3, 3)).is_empty());
}

#[test]
fn center_and_relative_pixels() {
    let tile = Tile { offset_origin: (300, 600), size: (300, 124) };
    assert_eq!(tile.center_pixel(), (450, 662));
    assert_eq!(tile.to_tile_relative_pixel((310, 601)), (10, 1));
    assert_eq!(tile.array_position_of((310, 601)), Some(310));
    assert_eq!(tile.array_position_of((299, 601)), None);
    assert_eq!(tile.array_position_of((310, 599)), None);
    // a pixel on the far edge counts on into the next row
    assert_eq!(tile.array_position_of((600, 600)), Some(300));
    let huge = Tile { offset_origin: (0, 0), size: (usize::MAX, 2) };
    assert_eq!(huge.array_position_of((5, 1)), None);
}
