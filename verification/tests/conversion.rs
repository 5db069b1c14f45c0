use std::collections::{BTreeSet, HashMap, HashSet};

use h3_raster::cluster::{attributes_by_position, convert_subset_by_filtering_and_region_growing};
use h3_raster::error::Error;
use h3_raster::grouped::GroupedH3Indexes;
use h3_raster::rasterconverter::{convert_subset, GroupedAccumulator};
use h3_raster::subset::{pixel_attributes, read_attributes, ConversionSubset};
use h3_raster::sweep::convert_subset_by_checking_index_positions;
use h3_raster::tile::{generate_tiles, Tile};
use h3_raster::value::Value;
use h3o::{CellIndex, LatLng, Resolution};

/// A north-up geotransform: the coordinate of the upper left corner of the raster and
/// the size of a pixel.
#[derive(Clone, Copy)]
struct Geo {
    x0: f64,
    y0: f64,
    pixel: f64,
}

impl Geo {
    fn pixel_to_coordinate(&self, pixel: (usize, usize)) -> (f64, f64) {
        (self.x0 + pixel.0 as f64 * self.pixel, self.y0 - pixel.1 as f64 * self.pixel)
    }

    fn coordinate_to_pixel(&self, coordinate: (f64, f64)) -> (usize, usize) {
        (
            ((coordinate.0 - self.x0) / self.pixel).floor() as usize,
            ((self.y0 - coordinate.1) / self.pixel).floor() as usize,
        )
    }

    /// Centres the given cell on the middle of the pixel.
    fn around(cell: CellIndex, pixel: (usize, usize), size: f64) -> Geo {
        let center = LatLng::from(cell);
        Geo {
            x0: center.lng() - (pixel.0 as f64 + 0.5) * size,
            y0: center.lat() + (pixel.1 as f64 + 0.5) * size,
            pixel: size,
        }
    }
}

fn cell_at(geo: Geo, resolution: u8) -> impl Fn((usize, usize)) -> u64 {
    move |pixel| {
        let (x, y) = geo.pixel_to_coordinate(pixel);
        u64::from(LatLng::new(y, x).unwrap().to_cell(Resolution::try_from(resolution).unwrap()))
    }
}

fn locate(geo: Geo, tile: Tile) -> impl Fn(u64) -> Option<(usize, usize)> {
    let a = geo.pixel_to_coordinate((
        tile.offset_origin.0 + tile.size.0,
        tile.offset_origin.1 + tile.size.1,
    ));
    let b = geo.pixel_to_coordinate(tile.offset_origin);
    let (min_x, max_x) = (a.0.min(b.0), a.0.max(b.0));
    let (min_y, max_y) = (a.1.min(b.1), a.1.max(b.1));
    move |cell| {
        let center = LatLng::from(CellIndex::try_from(cell).unwrap());
        let (x, y) = (center.lng(), center.lat());
        if x >= min_x && x < max_x && y > min_y && y <= max_y {
            Some(geo.coordinate_to_pixel((x, y)))
        } else {
            None
        }
    }
}

fn whole(width: usize, height: usize) -> Tile {
    Tile { offset_origin: (0, 0), size: (width, height) }
}

fn subset_of(tile: Tile, band: Vec<Option<Value>>, resolution: u8) -> ConversionSubset {
    ConversionSubset { tile, banddata: vec![band], h3_resolution: resolution }
}

fn classify(raw: &[u8]) -> Vec<Option<Value>> {
    raw.iter().map(|v| if *v == 0 { None } else { Some(Value::Uint8(*v)) }).collect()
}

fn cells_by_key(groups: &GroupedH3Indexes) -> HashMap<Vec<Option<Value>>, BTreeSet<u64>> {
    let mut found = HashMap::new();
    for i in 0..groups.len() {
        let key = groups.key(i).clone();
        let stack = groups.get(&key).unwrap();
        let cells: BTreeSet<u64> = stack.cells().iter().copied().collect();
        assert_eq!(cells.len(), stack.len(), "a cell stands twice under {:?}", key);
        found.insert(key, cells);
    }
    found
}

fn both_modes(
    subset: &ConversionSubset,
    geo: Geo,
    compact: bool,
) -> (GroupedH3Indexes, GroupedH3Indexes) {
    let cell_at = cell_at(geo, subset.h3_resolution);
    let locate = locate(geo, subset.tile);
    let swept =
        convert_subset_by_checking_index_positions(subset, &cell_at, &locate, compact).ok().unwrap();
    let filled = convert_subset_by_filtering_and_region_growing(subset, &cell_at, &locate, compact)
        .ok()
        .unwrap();
    (swept, filled)
}

/// The cells whose centre lies on a pixel with data, found by trying the cell of every
/// point of a fine mesh over the tile.
fn expected_cells(subset: &ConversionSubset, geo: Geo) -> HashMap<Vec<Option<Value>>, BTreeSet<u64>> {
    let locate = locate(geo, subset.tile);
    let resolution = Resolution::try_from(subset.h3_resolution).unwrap();
    let mut found: HashMap<Vec<Option<Value>>, BTreeSet<u64>> = HashMap::new();
    let steps = 12;
    for row in 0..subset.tile.size.1 * steps {
        for column in 0..subset.tile.size.0 * steps {
            let x = geo.x0 + (subset.tile.offset_origin.0 as f64 + column as f64 / steps as f64) * geo.pixel;
            let y = geo.y0 - (subset.tile.offset_origin.1 as f64 + row as f64 / steps as f64) * geo.pixel;
            let cell = u64::from(LatLng::new(y, x).unwrap().to_cell(resolution));
            if let Some(pixel) = locate(cell) {
                let attributes = pixel_attributes(subset, pixel);
                if attributes.iter().any(|v| v.is_some()) {
                    found.entry(attributes).or_default().insert(cell);
                }
            }
        }
    }
    found
}

#[test]
fn single_non_empty_pixel() {
    let cell = LatLng::new(10.0, 20.0).unwrap().to_cell(Resolution::Three);
    let geo = Geo::around(cell, (2, 2), 0.25);
    let mut raw = vec![0u8; 16];
    raw[2 * 4 + 2] = 5;
    let subset = subset_of(whole(4, 4), classify(&raw), 3);
    let key = vec![Some(Value::Uint8(5))];
    for compact in [false, true] {
        let (swept, filled) = both_modes(&subset, geo, compact);
        for groups in [&swept, &filled] {
            assert_eq!(groups.len(), 1);
            assert_eq!(groups.key(0), &key);
            assert_eq!(groups.get(&key).unwrap().cells(), &vec![u64::from(cell)]);
        }
    }
    let chosen = convert_subset(&subset, 1, &cell_at(geo, 3), &locate(geo, subset.tile), true);
    assert_eq!(cells_by_key(&chosen.ok().unwrap())[&key].len(), 1);
}

#[test]
fn full_nodata_raster() {
    let cell = LatLng::new(48.5, 2.5).unwrap().to_cell(Resolution::Seven);
    let geo = Geo::around(cell, (8, 8), 0.01);
    let subset = subset_of(whole(16, 16), classify(&vec![0u8; 256]), 7);
    for compact in [false, true] {
        let (swept, filled) = both_modes(&subset, geo, compact);
        assert!(swept.is_empty());
        assert!(filled.is_empty());
        assert_eq!(swept.len(), 0);
    }
}

#[test]
fn two_disjoint_clusters_with_distinct_attributes() {
    let cell = LatLng::new(48.5, 2.5).unwrap().to_cell(Resolution::Nine);
    let geo = Geo::around(cell, (10, 10), 0.01);
    let mut raw = vec![0u8; 400];
    for row in 2..=4 {
        for column in 2..=4 {
            raw[row * 20 + column] = 7;
            raw[(row + 10) * 20 + column + 10] = 9;
        }
    }
    let subset = subset_of(whole(20, 20), classify(&raw), 9);
    let a = vec![Some(Value::Uint8(7))];
    let b = vec![Some(Value::Uint8(9))];
    let expected = expected_cells(&subset, geo);
    assert_eq!(expected.len(), 2);
    let (swept, filled) = both_modes(&subset, geo, false);
    for groups in [&swept, &filled] {
        let found = cells_by_key(groups);
        assert_eq!(found.len(), 2);
        assert!(!found[&a].is_empty());
        assert!(!found[&b].is_empty());
        assert!(found[&a].is_disjoint(&found[&b]));
        assert_eq!(found, expected);
    }
}

#[test]
fn every_emitted_cell_lies_on_a_pixel_of_its_attributes() {
    let cell = LatLng::new(-33.9, 18.4).unwrap().to_cell(Resolution::Eight);
    let geo = Geo::around(cell, (6, 6), 0.02);
    let mut raw = vec![0u8; 144];
    for (i, value) in raw.iter_mut().enumerate() {
        *value = [0u8, 3, 0, 4, 4, 0, 0][i % 7];
    }
    let tile = whole(12, 12);
    let subset = subset_of(tile, classify(&raw), 8);
    let locate = locate(geo, tile);
    let (swept, filled) = both_modes(&subset, geo, false);
    for groups in [&swept, &filled] {
        for (key, cells) in cells_by_key(groups) {
            assert!(key.iter().any(|v| v.is_some()));
            for cell in cells {
                let pixel = locate(cell).unwrap();
                assert!(pixel.0 < 12 && pixel.1 < 12);
                assert_eq!(pixel_attributes(&subset, pixel), key);
                assert_eq!(read_attributes(&subset.banddata, Some(pixel.1 * 12 + pixel.0)), key);
            }
        }
    }
    assert_eq!(cells_by_key(&swept), expected_cells(&subset, geo));
}

#[test]
fn cluster_mode_and_sweep_mode_agree() {
    // blocks of 2 x 2 pixels, apart from each other, on about 5% of the raster
    let cell = LatLng::new(52.0, 13.0).unwrap().to_cell(Resolution::Ten);
    let geo = Geo::around(cell, (24, 24), 0.005);
    let mut state: u64 = 0x2545_f491_4f6c_dd1d;
    let mut raw = vec![0u8; 48 * 48];
    let mut occupied = 0;
    for row in (0..48).step_by(3) {
        for column in (0..48).step_by(3) {
            state = state.wrapping_mul(6364136223846793005).wrapping_add(1442695040888963407);
            if (state >> 33) % 100 < 11 {
                let value = 1 + ((state >> 20) % 3) as u8;
                raw[row * 48 + column] = value;
                raw[row * 48 + column + 1] = value;
                raw[(row + 1) * 48 + column] = value;
                raw[(row + 1) * 48 + column + 1] = value;
                occupied += 4;
            }
        }
    }
    assert!(occupied >= 48 && occupied <= 230, "{} pixels", occupied);
    let subset = subset_of(whole(48, 48), classify(&raw), 10);
    for compact in [false, true] {
        let (swept, filled) = both_modes(&subset, geo, compact);
        let swept = cells_by_key(&swept);
        assert!(swept.len() > 1);
        if !compact {
            assert_eq!(swept, expected_cells(&subset, geo));
        }
        assert_eq!(cells_by_key(&filled), swept);
    }
}

#[test]
fn a_cluster_gives_no_more_than_the_sweep() {
    // Two pixels that touch at a corner are one cluster. Its entry is sought among
    // the cells of the corners of its pixels, and the walk from the entry stays on
    // cells whose centre lies in the cluster.
    let cell = LatLng::new(52.0, 13.0).unwrap().to_cell(Resolution::Ten);
    let geo = Geo::around(cell, (2, 2), 0.005);
    let mut raw = vec![0u8; 16];
    raw[4 + 1] = 1;
    raw[2 * 4 + 2] = 1;
    let subset = subset_of(whole(4, 4), classify(&raw), 10);
    let (swept, filled) = both_modes(&subset, geo, false);
    let key = vec![Some(Value::Uint8(1))];
    let swept = cells_by_key(&swept)[&key].clone();
    assert_eq!(swept, expected_cells(&subset, geo)[&key]);
    for (found, cells) in cells_by_key(&filled) {
        assert_eq!(found, key);
        assert!(cells.is_subset(&swept));
    }
}

#[test]
fn compaction_keeps_the_coverage() {
    let cell = LatLng::new(48.5, 2.5).unwrap().to_cell(Resolution::Ten);
    let geo = Geo::around(cell, (3, 3), 0.01);
    let subset = subset_of(whole(6, 6), classify(&vec![1u8; 36]), 10);
    let (plain, _) = both_modes(&subset, geo, false);
    let (compacted, filled) = both_modes(&subset, geo, true);
    let key = vec![Some(Value::Uint8(1))];
    let plain = cells_by_key(&plain)[&key].clone();
    for groups in [&compacted, &filled] {
        let cells = cells_by_key(groups)[&key].clone();
        assert!(cells.len() < plain.len());
        let mut uncompacted = BTreeSet::new();
        for cell in cells {
            let cell = CellIndex::try_from(cell).unwrap();
            for child in cell.children(Resolution::Ten) {
                assert!(uncompacted.insert(u64::from(child)));
            }
        }
        assert_eq!(uncompacted, plain);
    }
}

#[test]
fn tiles_give_the_cells_of_the_whole_raster() {
    let cell = LatLng::new(48.5, 2.5).unwrap().to_cell(Resolution::Nine);
    let geo = Geo::around(cell, (12, 8), 0.01);
    let (width, height) = (24, 16);
    let mut raw = vec![0u8; width * height];
    for (i, value) in raw.iter_mut().enumerate() {
        *value = [1u8, 1, 0, 2, 2, 2, 0, 0, 1][(i + i / width) % 9];
    }
    let band = classify(&raw);
    let whole_raster = subset_of(whole(width, height), band.clone(), 9);
    let expected = expected_cells(&whole_raster, geo);
    for tile_size in [(24, 16), (10, 7), (5, 16)] {
        let tiles = generate_tiles((width, height), tile_size);
        let mut partials = Vec::new();
        for tile in tiles.iter() {
            let mut data = Vec::new();
            for row in 0..tile.size.1 {
                for column in 0..tile.size.0 {
                    data.push(band[(tile.offset_origin.1 + row) * width + tile.offset_origin.0 + column]);
                }
            }
            let subset = subset_of(*tile, data, 9);
            let cell_at = cell_at(geo, 9);
            let locate = locate(geo, *tile);
            partials.push(
                convert_subset_by_checking_index_positions(&subset, &cell_at, &locate, false)
                    .ok()
                    .unwrap(),
            );
        }
        let forward = {
            let mut accumulator = GroupedAccumulator::new(partials.len());
            let mut seen = HashSet::new();
            for partial in partials {
                for cells in cells_by_key(&partial).values() {
                    for cell in cells {
                        assert!(seen.insert(*cell), "a cell came from two tiles");
                    }
                }
                accumulator.merge(partial);
            }
            accumulator.finalize(false);
            cells_by_key(&accumulator.take())
        };
        assert_eq!(forward, expected);
    }
}

#[test]
fn a_seed_that_is_no_cell_stops_the_sweep() {
    let cell = LatLng::new(10.0, 20.0).unwrap().to_cell(Resolution::Three);
    let geo = Geo::around(cell, (2, 2), 0.25);
    let subset = subset_of(whole(4, 4), classify(&vec![1u8; 16]), 3);
    let locate = locate(geo, subset.tile);
    let broken = |_pixel: (usize, usize)| 0u64;
    assert_eq!(
        convert_subset_by_checking_index_positions(&subset, &broken, &locate, false).err(),
        Some(Error::InvalidCellIndex)
    );
    let coarse = cell_at(geo, 2);
    assert_eq!(
        convert_subset_by_checking_index_positions(&subset, &coarse, &locate, false).err(),
        Some(Error::InvalidResolution)
    );
    // the clusters pass over cells that cannot serve as an entry
    let filled = convert_subset_by_filtering_and_region_growing(&subset, &broken, &locate, false);
    assert!(filled.ok().unwrap().is_empty());
    let filled = convert_subset_by_filtering_and_region_growing(&subset, &coarse, &locate, false);
    assert!(filled.ok().unwrap().is_empty());
}

#[test]
fn a_resolution_beyond_the_grid_stops_both_modes() {
    let cell = LatLng::new(10.0, 20.0).unwrap().to_cell(Resolution::Three);
    let geo = Geo::around(cell, (2, 2), 0.25);
    let subset = subset_of(whole(4, 4), classify(&vec![1u8; 16]), 16);
    let locate = locate(geo, subset.tile);
    let cell_at = cell_at(geo, 3);
    assert_eq!(
        convert_subset_by_checking_index_positions(&subset, &cell_at, &locate, false).err(),
        Some(Error::H3ResolutionOutOfRange)
    );
    assert_eq!(
        convert_subset_by_filtering_and_region_growing(&subset, &cell_at, &locate, false).err(),
        Some(Error::H3ResolutionOutOfRange)
    );
}

#[test]
fn occupied_positions_hold_their_attributes() {
    let bands = vec![
        vec![None, Some(Value::Uint8(1)), None, Some(Value::Uint8(2))],
        vec![None, None, Some(Value::Int16(-1)), Some(Value::Int16(5)), Some(Value::Int16(6))],
    ];
    let found = attributes_by_position(&bands);
    assert_eq!(found.len(), 3);
    assert_eq!(found[&1], vec![Some(Value::Uint8(1)), None]);
    assert_eq!(found[&2], vec![None, Some(Value::Int16(-1))]);
    assert_eq!(found[&3], vec![Some(Value::Uint8(2)), Some(Value::Int16(5))]);
    assert!(attributes_by_position(&Vec::new()).is_empty());
    assert_eq!(read_attributes(&bands, Some(4)), vec![None, Some(Value::Int16(6))]);
    assert_eq!(read_attributes(&bands, Some(9)), vec![None, None]);
    assert_eq!(read_attributes(&bands, None), vec![None, None]);
}

#[test]
fn the_sweep_empties_buckets_on_the_way() {
    let cell = LatLng::new(48.5, 2.5).unwrap().to_cell(Resolution::Eleven);
    let geo = Geo::around(cell, (2, 2), 0.02);
    let subset = subset_of(whole(4, 4), classify(&vec![1u8; 16]), 11);
    let (swept, filled) = both_modes(&subset, geo, false);
    let key = vec![Some(Value::Uint8(1))];
    let swept = cells_by_key(&swept)[&key].clone();
    assert!(swept.len() > 20_001, "only {} cells", swept.len());
    assert_eq!(cells_by_key(&filled)[&key], swept);
}
