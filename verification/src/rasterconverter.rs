//! Setting up a conversion, choosing how a tile is converted, and gathering the
//! results of the tiles.

use crate::cells::MAX_RESOLUTION;
use crate::cluster::{
    cluster_emits, convert_subset_by_filtering_and_region_growing, is_filled, lemma_filled_cells,
};
use crate::error::Error;
use crate::grouped::{compacted, merged, GroupedCells, GroupedH3Indexes};
use crate::subset::{is_function, value_of, ConversionSubset};
use crate::sweep::{
    convert_subset_by_checking_index_positions, is_swept, lemma_swept_cells, sweep_emits,
};
use crate::tile::{generate_tiles, tile_at, tile_count, Tile};
use crate::value::{AttributeSeq, Value};
use vstd::prelude::*;

verus! {

/// How far a conversion has come: the number of tiles, and how many of them are merged.
#[derive(Clone, Copy, Debug, PartialEq, Eq, Structural)]
pub struct ConversionProgress {
    pub tiles_total: usize,
    pub tiles_done: usize,
}

impl ConversionProgress {
    /// The position of the conversion: the number of tiles that are done.
    pub fn position(&self) -> (position: u64)
        ensures
            position == self.tiles_done,
    {
        self.tiles_done as u64
    }
}

/// What a raster declares of its spatial reference.
#[derive(Clone, Copy, Debug, PartialEq, Eq, Structural)]
pub enum SpatialReference {
    /// It declares none, or one that cannot be read.
    Unknown,
    /// It declares WGS 84 (EPSG:4326).
    Wgs84,
    /// It declares another one.
    Other,
}

/// What a raster has by way of a geotransform.
#[derive(Clone, Copy, Debug, PartialEq, Eq, Structural)]
pub enum Georeference {
    /// It has none.
    Missing,
    /// It has one that cannot be inverted.
    Singular,
    /// It has one that maps pixels to coordinates and back.
    Invertible,
}

/// What a converter needs to know of a raster.
#[derive(Clone, Copy, Debug, PartialEq, Eq)]
pub struct RasterInfo {
    /// The number of bands.
    pub band_count: usize,
    /// The size in pixels, `(width, height)`.
    pub size: (usize, usize),
    pub spatial_reference: SpatialReference,
    pub georeference: Georeference,
}

/// A band of the raster to convert, and the class of values that its classifier reads.
#[derive(Clone, Copy, Debug, PartialEq, Eq)]
pub struct ClassifiedBand {
    /// The number of the band in the raster, counted from 1.
    pub source_band: u8,
    /// A value of the class that the band is read as.
    pub value_type: Value,
}

/// A converted raster: the class of values of each input band, and the cells grouped
/// by attribute vector.
pub struct ConvertedRaster {
    pub value_types: Vec<Value>,
    pub indexes: GroupedH3Indexes,
}

/// Why no converter can be made for these inputs, if anything: the bands are checked
/// first, then the spatial reference, the resolution and the geotransform.
pub open spec fn setup_error(raster: RasterInfo, inputs: Seq<ClassifiedBand>, h3_resolution: u8) -> Option<
    Error,
> {
    if exists|i: int| 0 <= i < inputs.len() && (#[trigger] inputs[i]).source_band > raster.band_count {
        Some(Error::BandOutOfRange)
    } else if raster.spatial_reference == SpatialReference::Other {
        Some(Error::InvalidSRS)
    } else if h3_resolution > MAX_RESOLUTION {
        Some(Error::H3ResolutionOutOfRange)
    } else if raster.georeference == Georeference::Missing {
        Some(Error::NoGeotransformFound)
    } else if raster.georeference == Georeference::Singular {
        Some(Error::GeotransformFailed)
    } else {
        None
    }
}

/// Converts the bands of a raster into cells of one resolution.
pub struct RasterConverter {
    inputs: Vec<ClassifiedBand>,
    size: (usize, usize),
    h3_resolution: u8,
}

impl RasterConverter {
    /// The input bands of the converter.
    pub closed spec fn inputs(&self) -> Seq<ClassifiedBand> {
        self.inputs@
    }

    /// The size of the raster in pixels.
    pub closed spec fn size(&self) -> (usize, usize) {
        self.size
    }

    /// The resolution of the cells that the converter makes.
    pub closed spec fn resolution(&self) -> u8 {
        self.h3_resolution
    }

    /// A converter for the raster, where the inputs fit it: every input band is a band
    /// of the raster, the raster does not declare another spatial reference than
    /// WGS 84, the resolution is one of the grid, and the raster has a geotransform
    /// that can be inverted.
    pub fn new(raster: RasterInfo, inputs: Vec<ClassifiedBand>, h3_resolution: u8) -> (outcome:
        Result<Self, Error>)
        ensures
            match outcome {
                Ok(converter) => {
                    &&& setup_error(raster, inputs@, h3_resolution) is None
                    &&& converter.inputs() == inputs@
                    &&& converter.size() == raster.size
                    &&& converter.resolution() == h3_resolution
                },
                Err(error) => setup_error(raster, inputs@, h3_resolution) == Some(error),
            },
    {
        let mut required_max_band: u8 = 0;
        let mut i: usize = 0;
        while i < inputs.len()
            invariant
                i <= inputs.len(),
                forall|k: int| 0 <= k < i ==> (#[trigger] inputs@[k]).source_band <= required_max_band,
                required_max_band == 0 || exists|k: int|
                    0 <= k < i && (#[trigger] inputs@[k]).source_band == required_max_band,
            decreases inputs.len() - i,
        {
            if inputs[i].source_band > required_max_band {
                required_max_band = inputs[i].source_band;
            }
            i = i + 1;
        }
        if required_max_band as usize > raster.band_count {
            return Err(Error::BandOutOfRange);
        }
        match raster.spatial_reference {
            SpatialReference::Other => {
                return Err(Error::InvalidSRS);
            },
            _ => {},
        }
        if h3_resolution > MAX_RESOLUTION {
            return Err(Error::H3ResolutionOutOfRange);
        }
        match raster.georeference {
            Georeference::Missing => Err(Error::NoGeotransformFound),
            Georeference::Singular => Err(Error::GeotransformFailed),
            Georeference::Invertible => Ok(
                RasterConverter { inputs, size: raster.size, h3_resolution },
            ),
        }
    }

    /// The resolution of the cells that the converter makes.
    pub fn h3_resolution(&self) -> (resolution: u8)
        ensures
            resolution == self.resolution(),
    {
        self.h3_resolution
    }

    /// The source bands of the inputs, in their order.
    pub fn source_bands(&self) -> (bands: Vec<u8>)
        ensures
            bands@.len() == self.inputs().len(),
            forall|i: int| 0 <= i < bands@.len() ==> bands@[i] == self.inputs()[i].source_band,
    {
        let mut bands: Vec<u8> = Vec::new();
        let mut i: usize = 0;
        while i < self.inputs.len()
            invariant
                i <= self.inputs.len(),
                bands@.len() == i,
                forall|k: int| 0 <= k < i ==> bands@[k] == self.inputs@[k].source_band,
            decreases self.inputs.len() - i,
        {
            bands.push(self.inputs[i].source_band);
            i = i + 1;
        }
        bands
    }

    /// The class of values of each input band, in the order of the inputs.
    pub fn value_types(&self) -> (value_types: Vec<Value>)
        ensures
            value_types@.len() == self.inputs().len(),
            forall|i: int|
                0 <= i < value_types@.len() ==> value_types@[i] == self.inputs()[i].value_type,
    {
        let mut value_types: Vec<Value> = Vec::new();
        let mut i: usize = 0;
        while i < self.inputs.len()
            invariant
                i <= self.inputs.len(),
                value_types@.len() == i,
                forall|k: int| 0 <= k < i ==> value_types@[k] == self.inputs@[k].value_type,
            decreases self.inputs.len() - i,
        {
            value_types.push(self.inputs[i].value_type);
            i = i + 1;
        }
        value_types
    }

    /// The tiling of the whole raster into tiles of at most `tile_size`.
    pub fn tiles(&self, tile_size: (usize, usize)) -> (tiles: Vec<Tile>)
        requires
            tile_size.0 > 0,
            tile_size.1 > 0,
        ensures
            tiles@.len() == tile_count(self.size().0 as int, tile_size.0 as int) * tile_count(
                self.size().1 as int,
                tile_size.1 as int,
            ),
            forall|tile_column: int, tile_row: int|
                0 <= tile_column < tile_count(self.size().0 as int, tile_size.0 as int) && 0
                    <= tile_row < tile_count(self.size().1 as int, tile_size.1 as int)
                    ==> #[trigger] tiles@[tile_column * tile_count(
                    self.size().1 as int,
                    tile_size.1 as int,
                ) + tile_row] == tile_at(self.size(), tile_size, tile_column, tile_row),
    {
        generate_tiles(self.size, tile_size)
    }

    /// The share of a tile in the conversion, made of the values read for it: for each
    /// input one band of as many values as the tile has pixels. Anything else is
    /// refused as a failed read.
    pub fn subset(&self, tile: Tile, banddata: Vec<Vec<Option<Value>>>) -> (outcome: Result<
        ConversionSubset,
        Error,
    >)
        ensures
            match outcome {
                Ok(subset) => {
                    &&& is_tile_data(tile, banddata@, self.inputs().len() as int)
                    &&& subset.wf()
                    &&& subset.tile == tile
                    &&& subset.banddata == banddata
                    &&& subset.h3_resolution == self.resolution()
                },
                Err(error) => error == Error::RasterReadError && !is_tile_data(
                    tile,
                    banddata@,
                    self.inputs().len() as int,
                ),
            },
    {
        if banddata.len() != self.inputs.len() {
            return Err(Error::RasterReadError);
        }
        if tile.offset_origin.0.checked_add(tile.size.0).is_none() {
            return Err(Error::RasterReadError);
        }
        if tile.offset_origin.1.checked_add(tile.size.1).is_none() {
            return Err(Error::RasterReadError);
        }
        let pixels = tile.size.0.checked_mul(tile.size.1);
        let mut band: usize = 0;
        while band < banddata.len()
            invariant
                band <= banddata.len(),
                match pixels {
                    Some(count) => count == tile.size.0 * tile.size.1,
                    None => tile.size.0 * tile.size.1 > usize::MAX,
                },
                forall|b: int|
                    0 <= b < band ==> (#[trigger] banddata@[b])@.len() == tile.size.0 * tile.size.1,
            decreases banddata.len() - band,
        {
            let values = banddata[band].len();
            let fits = match pixels {
                Some(count) => values == count,
                None => false,
            };
            if !fits {
                proof {
                    assert(banddata@[band as int]@.len() != tile.size.0 * tile.size.1);
                }
                return Err(Error::RasterReadError);
            }
            band = band + 1;
        }
        Ok(ConversionSubset { tile, banddata, h3_resolution: self.h3_resolution })
    }
}

/// The values read for a tile fit it: the far corner of the tile is a pixel of machine
/// words, there is one band for each input, and every band holds as many values as the
/// tile has pixels.
pub open spec fn is_tile_data(tile: Tile, banddata: Seq<Vec<Option<Value>>>, inputs: int) -> bool {
    &&& tile.wf()
    &&& banddata.len() == inputs
    &&& forall|band: int|
        0 <= band < banddata.len() ==> (#[trigger] banddata[band])@.len() == tile.size.0
            * tile.size.1
}

/// The two ways of converting a tile.
#[derive(Clone, Copy, Debug, PartialEq, Eq, Structural)]
pub enum ConversionMode {
    /// The clusters of occupied pixels are found and filled with cells.
    FilteringAndRegionGrowing,
    /// The tile is swept with cells, and the pixel under each cell is checked.
    CheckingIndexPositions,
}

/// Whether a tile is converted cluster by cluster: that is so where nine tenths of the
/// number of cells that fit into the tile, counted as at least one, are more than the
/// number of its pixels.
pub open spec fn prefers_region_growing(estimated_cells: int, width: int, height: int) -> bool {
    let n_h3indexes = if estimated_cells < 1 {
        1
    } else {
        estimated_cells
    };
    9 * n_h3indexes > 10 * (width * height)
}

/// The way in which a tile of the given size is converted, where about
/// `estimated_cells` cells fit into it.
pub fn conversion_mode(estimated_cells: usize, tile_size: (usize, usize)) -> (mode: ConversionMode)
    ensures
        mode == if prefers_region_growing(
            estimated_cells as int,
            tile_size.0 as int,
            tile_size.1 as int,
        ) {
            ConversionMode::FilteringAndRegionGrowing
        } else {
            ConversionMode::CheckingIndexPositions
        },
{
    let n_h3indexes: u128 = if estimated_cells < 1 {
        1
    } else {
        estimated_cells as u128
    };
    assert(tile_size.0 * tile_size.1 <= 0xffff_ffff_ffff_ffff * 0xffff_ffff_ffff_ffff)
        by (nonlinear_arith)
        requires
            0 <= tile_size.0 <= 0xffff_ffff_ffff_ffff,
            0 <= tile_size.1 <= 0xffff_ffff_ffff_ffff,
    ;
    let n_pixels: u128 = (tile_size.0 as u128) * (tile_size.1 as u128);
    if n_pixels > 0xffff_ffff_ffff_ffff_ffff {
        ConversionMode::CheckingIndexPositions
    } else if 9 * n_h3indexes > 10 * n_pixels {
        ConversionMode::FilteringAndRegionGrowing
    } else {
        ConversionMode::CheckingIndexPositions
    }
}

/// Converts one tile, cluster by cluster or by a sweep, as `conversion_mode` says for
/// its size and the estimated number of cells that fit into it.
pub fn convert_subset<C: Fn((usize, usize)) -> u64, L: Fn(u64) -> Option<(usize, usize)>>(
    subset: &ConversionSubset,
    estimated_cells: usize,
    cell_at: &C,
    locate: &L,
    compact: bool,
) -> (outcome: Result<GroupedH3Indexes, Error>)
    requires
        subset.wf(),
        is_function(*cell_at),
        is_function(*locate),
    ensures
        if prefers_region_growing(
            estimated_cells as int,
            subset.tile.size.0 as int,
            subset.tile.size.1 as int,
        ) {
            is_filled(outcome, *subset, *cell_at, *locate, compact)
        } else {
            is_swept(outcome, *subset, *cell_at, *locate, compact)
        },
{
    match conversion_mode(estimated_cells, subset.tile.size) {
        ConversionMode::FilteringAndRegionGrowing => convert_subset_by_filtering_and_region_growing(
            subset,
            cell_at,
            locate,
            compact,
        ),
        ConversionMode::CheckingIndexPositions => convert_subset_by_checking_index_positions(
            subset,
            cell_at,
            locate,
            compact,
        ),
    }
}

/// No cell is emitted for two tiles, where no cell is located within both of them.
pub proof fn lemma_tiles_share_no_cell<
    C: Fn((usize, usize)) -> u64,
    L: Fn(u64) -> Option<(usize, usize)>,
    M: Fn(u64) -> Option<(usize, usize)>,
>(
    one: ConversionSubset,
    other: ConversionSubset,
    cell_at: C,
    locate_one: L,
    locate_other: M,
    seed_one: u64,
    seed_other: u64,
    cell: u64,
    key_one: AttributeSeq,
    key_other: AttributeSeq,
)
    requires
        forall|any: u64|
            !(#[trigger] value_of(locate_one, any) is Some && value_of(locate_other, any) is Some),
        sweep_emits(one, locate_one, seed_one)(cell, key_one) || cluster_emits(
            one,
            cell_at,
            locate_one,
        )(cell, key_one),
    ensures
        !sweep_emits(other, locate_other, seed_other)(cell, key_other),
        !cluster_emits(other, cell_at, locate_other)(cell, key_other),
{
    if sweep_emits(one, locate_one, seed_one)(cell, key_one) {
        lemma_swept_cells(one, locate_one, seed_one, cell, key_one);
    } else {
        lemma_filled_cells(one, cell_at, locate_one, cell, key_one);
    }
    assert(value_of(locate_one, cell) is Some);
    if sweep_emits(other, locate_other, seed_other)(cell, key_other) {
        lemma_swept_cells(other, locate_other, seed_other, cell, key_other);
    }
    if cluster_emits(other, cell_at, locate_other)(cell, key_other) {
        lemma_filled_cells(other, cell_at, locate_other, cell, key_other);
    }
}

/// Gathers the results of the tiles of a conversion.
pub struct GroupedAccumulator {
    indexes: GroupedH3Indexes,
    tiles_total: usize,
    tiles_done: usize,
}

impl GroupedAccumulator {
    /// The cells gathered so far.
    pub closed spec fn cells(&self) -> GroupedCells {
        self.indexes@
    }

    /// The number of tiles of the conversion.
    pub closed spec fn total(&self) -> usize {
        self.tiles_total
    }

    /// The number of tiles that are merged.
    pub closed spec fn done(&self) -> usize {
        self.tiles_done
    }

    /// What every accumulator keeps to.
    pub closed spec fn wf(&self) -> bool {
        self.indexes.wf()
    }

    /// An accumulator for a conversion of `tiles_total` tiles, without cells.
    pub fn new(tiles_total: usize) -> (accumulator: Self)
        ensures
            accumulator.wf(),
            accumulator.cells() == GroupedCells::empty(),
            accumulator.total() == tiles_total,
            accumulator.done() == 0,
    {
        GroupedAccumulator { indexes: GroupedH3Indexes::new(), tiles_total, tiles_done: 0 }
    }

    /// Merges the result of one tile: its cells go behind those gathered under the same
    /// attribute vector, without compaction. Returns the progress made.
    pub fn merge(&mut self, partial: GroupedH3Indexes) -> (progress: ConversionProgress)
        requires
            old(self).wf(),
            partial.wf(),
            old(self).done() < usize::MAX,
        ensures
            final(self).wf(),
            final(self).cells() == merged(old(self).cells(), partial@),
            final(self).total() == old(self).total(),
            final(self).done() == old(self).done() + 1,
            progress == (ConversionProgress {
                tiles_total: old(self).total(),
                tiles_done: (old(self).done() + 1) as usize,
            }),
    {
        self.indexes.merge(partial);
        self.tiles_done = self.tiles_done + 1;
        ConversionProgress { tiles_total: self.tiles_total, tiles_done: self.tiles_done }
    }

    /// Ends the gathering: where `compact` is set, the cells under every attribute
    /// vector are compacted, once.
    pub fn finalize(&mut self, compact: bool)
        requires
            old(self).wf(),
        ensures
            final(self).wf(),
            final(self).cells() == if compact {
                compacted(old(self).cells())
            } else {
                old(self).cells()
            },
            final(self).total() == old(self).total(),
            final(self).done() == old(self).done(),
    {
        if compact {
            self.indexes.compact();
        }
    }

    /// Hands out the cells gathered.
    pub fn take(self) -> (indexes: GroupedH3Indexes)
        requires
            self.wf(),
        ensures
            indexes.wf(),
            indexes@ == self.cells(),
    {
        self.indexes
    }
}

} // verus!
