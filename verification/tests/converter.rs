use h3_raster::error::Error;
use h3_raster::rasterconverter::{
    conversion_mode, ClassifiedBand, ConversionMode, ConversionProgress, Georeference, RasterConverter,
    RasterInfo, SpatialReference,
};
use h3_raster::tile::Tile;
use h3_raster::value::Value;

fn raster() -> RasterInfo {
    RasterInfo {
        band_count: 3,
        size: (1024, 512),
        spatial_reference: SpatialReference::Wgs84,
        georeference: Georeference::Invertible,
    }
}

fn band(source_band: u8) -> ClassifiedBand {
    ClassifiedBand { source_band, value_type: Value::Uint8(0) }
}

#[test]
fn a_converter_is_made_for_fitting_inputs() {
    let converter = RasterConverter::new(raster(), vec![band(2), band(3)], 3).ok().unwrap();
    assert_eq!(converter.h3_resolution(), 3);
    assert_eq!(converter.source_bands(), vec![2, 3]);
    assert_eq!(converter.value_types(), vec![Value::Uint8(0), Value::Uint8(0)]);
    assert_eq!(converter.tiles((300, 300)).len(), 8);
    assert!(RasterConverter::new(raster(), vec![], 15).is_ok());
    assert!(RasterConverter::new(raster(), vec![band(0)], 0).is_ok());
}

#[test]
fn a_band_beyond_the_raster_is_refused() {
    assert_eq!(RasterConverter::new(raster(), vec![band(1), band(4)], 3).err(), Some(Error::BandOutOfRange));
    assert!(RasterConverter::new(raster(), vec![band(3)], 3).is_ok());
}

#[test]
fn another_spatial_reference_is_refused() {
    let mut info = raster();
    info.spatial_reference = SpatialReference::Other;
    assert_eq!(RasterConverter::new(info, vec![band(1)], 3).err(), Some(Error::InvalidSRS));
    info.spatial_reference = SpatialReference::Unknown;
    assert!(RasterConverter::new(info, vec![band(1)], 3).is_ok());
}

#[test]
fn a_resolution_beyond_the_grid_is_refused() {
    assert_eq!(
        RasterConverter::new(raster(), vec![band(1)], 16).err(),
        Some(Error::H3ResolutionOutOfRange)
    );
}

#[test]
fn a_raster_without_usable_geotransform_is_refused() {
    let mut info = raster();
    info.georeference = Georeference::Missing;
    assert_eq!(RasterConverter::new(info, vec![band(1)], 3).err(), Some(Error::NoGeotransformFound));
    info.georeference = Georeference::Singular;
    assert_eq!(RasterConverter::new(info, vec![band(1)], 3).err(), Some(Error::GeotransformFailed));
}

#[test]
fn the_checks_come_in_their_order() {
    let mut info = raster();
    info.spatial_reference = SpatialReference::Other;
    info.georeference = Georeference::Missing;
    assert_eq!(RasterConverter::new(info, vec![band(9)], 99).err(), Some(Error::BandOutOfRange));
    assert_eq!(RasterConverter::new(info, vec![band(1)], 99).err(), Some(Error::InvalidSRS));
    info.spatial_reference = SpatialReference::Wgs84;
    assert_eq!(RasterConverter::new(info, vec![band(1)], 99).err(), Some(Error::H3ResolutionOutOfRange));
}

#[test]
fn tile_data_must_fit_the_tile() {
    let converter = RasterConverter::new(raster(), vec![band(1), band(2)], 3).ok().unwrap();
    let tile = Tile { offset_origin: (0, 0), size: (2, 3) };
    let subset = converter.subset(tile, vec![vec![None; 6], vec![Some(Value::Uint8(1)); 6]]);
    let subset = subset.ok().unwrap();
    assert_eq!(subset.h3_resolution, 3);
    assert_eq!(subset.tile, tile);
    assert_eq!(subset.banddata.len(), 2);
    assert_eq!(
        converter.subset(tile, vec![vec![None; 6]]).err(),
        Some(Error::RasterReadError)
    );
    assert_eq!(
        converter.subset(tile, vec![vec![None; 6], vec![None; 5]]).err(),
        Some(Error::RasterReadError)
    );
    let far = Tile { offset_origin: (usize::MAX, 0), size: (2, 3) };
    assert_eq!(
        converter.subset(far, vec![vec![None; 6], vec![None; 6]]).err(),
        Some(Error::RasterReadError)
    );
}

#[test]
fn the_mode_follows_the_number_of_cells() {
    let (sweep, clusters) =
        (ConversionMode::CheckingIndexPositions, ConversionMode::FilteringAndRegionGrowing);
    // 0.9 * 100 = 90 is not more than 90: the tie goes to the sweep
    assert_eq!(conversion_mode(100, (9, 10)), sweep);
    assert_eq!(conversion_mode(101, (9, 10)), clusters);
    assert_eq!(conversion_mode(100, (89, 1)), clusters);
    // 0.9 * 11 = 9.9 is more than 9
    assert_eq!(conversion_mode(11, (3, 3)), clusters);
    assert_eq!(conversion_mode(10, (3, 3)), sweep);
    // the number of cells counts as at least one
    assert_eq!(conversion_mode(0, (0, 0)), clusters);
    assert_eq!(conversion_mode(0, (1, 1)), sweep);
    assert_eq!(conversion_mode(1, (4, 4)), sweep);
    assert_eq!(conversion_mode(usize::MAX, (usize::MAX, usize::MAX)), sweep);
    assert_eq!(conversion_mode(usize::MAX, (300, 300)), clusters);
}

#[test]
fn progress_reports_the_tiles_done() {
    let progress = ConversionProgress { tiles_total: 12, tiles_done: 5 };
    assert_eq!(progress.position(), 5);
}

#[test]
fn every_failure_has_its_message() {
    let all = [
        Error::BandOutOfRange,
        Error::InvalidSRS,
        Error::NoGeotransformFound,
        Error::GeotransformFailed,
        Error::H3ResolutionOutOfRange,
        Error::InvalidCellIndex,
        Error::InvalidResolution,
        Error::RasterReadError,
        Error::ConversionFailed,
    ];
    for (i, one) in all.iter().enumerate() {
        assert!(!one.message().is_empty());
        for other in all.iter().skip(i + 1) {
            assert_ne!(one.message(), other.message());
        }
    }
    assert_eq!(Error::ConversionFailed.message(), "conversion failed");
}
