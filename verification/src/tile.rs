//! Rectangular windows onto a raster and the arithmetic between pixels and
//! positions in a row-major tile array.

use vstd::arithmetic::div_mod::{lemma_fundamental_div_mod, lemma_fundamental_div_mod_converse};
use vstd::prelude::*;

verus! {

/// Position of the pixel `(column, row)` in a row-major array of rows of `width` pixels.
pub open spec fn array_position(column: int, row: int, width: int) -> int {
    row * width + column
}

/// Row of an array position in a tile of the given width.
pub open spec fn position_row(position: int, width: int) -> int {
    position / width
}

/// Column of an array position in a tile of the given width.
pub open spec fn position_column(position: int, width: int) -> int {
    position % width
}

/// Array position of the tile-relative pixel `(column, row)` in a tile of size
/// `(width, height)`.
pub fn pixel_to_array_position(tile_pixel: (usize, usize), tile_size: (usize, usize)) -> (position:
    usize)
    requires
        array_position(tile_pixel.0 as int, tile_pixel.1 as int, tile_size.0 as int) <= usize::MAX,
    ensures
        position == array_position(tile_pixel.0 as int, tile_pixel.1 as int, tile_size.0 as int),
{
    assert(tile_pixel.1 * tile_size.0 >= 0) by (nonlinear_arith);
    (tile_pixel.1 * tile_size.0) + tile_pixel.0
}

/// Splits an array position by the tile width into `(row, column)`.
pub fn array_position_to_pixel(array_pos: usize, tile_size: (usize, usize)) -> (pixel: (
    usize,
    usize,
))
    requires
        tile_size.0 > 0,
    ensures
        pixel.0 == position_row(array_pos as int, tile_size.0 as int),
        pixel.1 == position_column(array_pos as int, tile_size.0 as int),
{
    (array_pos / tile_size.0, array_pos % tile_size.0)
}

/// Splitting the array position of a pixel gives back its row and column, for every
/// pixel whose column lies within the tile width.
pub proof fn lemma_position_round_trip(column: int, row: int, width: int)
    requires
        0 <= column < width,
        0 <= row,
    ensures
        position_row(array_position(column, row, width), width) == row,
        position_column(array_position(column, row, width), width) == column,
{
    lemma_fundamental_div_mod_converse(array_position(column, row, width), width, row, column);
}

/// A rectangular window onto a raster: the pixel `(column, row)` of its upper left
/// corner and its `(width, height)`.
#[derive(Clone, Copy, Debug, PartialEq, Eq)]
pub struct Tile {
    pub offset_origin: (usize, usize),
    pub size: (usize, usize),
}

impl Tile {
    /// The pixel coordinates of the far corner of the tile are machine words.
    pub open spec fn wf(&self) -> bool {
        &&& self.offset_origin.0 + self.size.0 <= usize::MAX
        &&& self.offset_origin.1 + self.size.1 <= usize::MAX
    }

    /// The raster pixel `(column, row)` lies within the tile.
    pub open spec fn contains(&self, column: int, row: int) -> bool {
        &&& self.offset_origin.0 <= column < self.offset_origin.0 + self.size.0
        &&& self.offset_origin.1 <= row < self.offset_origin.1 + self.size.1
    }

    /// The array position of a raster pixel, counted from the origin of the tile in
    /// rows of the tile's width, where the pixel lies neither left of nor above the
    /// origin.
    pub open spec fn position_of(&self, pixel: (usize, usize)) -> Option<int> {
        if pixel.0 >= self.offset_origin.0 && pixel.1 >= self.offset_origin.1 {
            Some(
                array_position(
                    pixel.0 - self.offset_origin.0,
                    pixel.1 - self.offset_origin.1,
                    self.size.0 as int,
                ),
            )
        } else {
            None
        }
    }

    /// The raster pixel in the middle of the tile.
    pub fn center_pixel(&self) -> (pixel: (usize, usize))
        requires
            self.wf(),
        ensures
            pixel.0 == self.offset_origin.0 + self.size.0 / 2,
            pixel.1 == self.offset_origin.1 + self.size.1 / 2,
    {
        (self.offset_origin.0 + self.size.0 / 2, self.offset_origin.1 + self.size.1 / 2)
    }

    /// The pixel of the raster as seen from the origin of the tile.
    pub fn to_tile_relative_pixel(&self, pixel: (usize, usize)) -> (relative: (usize, usize))
        requires
            pixel.0 >= self.offset_origin.0,
            pixel.1 >= self.offset_origin.1,
        ensures
            relative.0 == pixel.0 - self.offset_origin.0,
            relative.1 == pixel.1 - self.offset_origin.1,
    {
        (pixel.0 - self.offset_origin.0, pixel.1 - self.offset_origin.1)
    }

    /// The array position of a raster pixel within the tile: `None` where the pixel
    /// lies left of or above the origin of the tile, or where the position is no
    /// machine word.
    pub fn array_position_of(&self, pixel: (usize, usize)) -> (position: Option<usize>)
        ensures
            match position {
                Some(found) => self.position_of(pixel) == Some(found as int),
                None => match self.position_of(pixel) {
                    Some(far) => far > usize::MAX,
                    None => true,
                },
            },
    {
        if pixel.0 < self.offset_origin.0 || pixel.1 < self.offset_origin.1 {
            return None;
        }
        let relative = self.to_tile_relative_pixel(pixel);
        match relative.1.checked_mul(self.size.0) {
            Some(start) => start.checked_add(relative.0),
            None => {
                assert(relative.1 * self.size.0 + relative.0 >= relative.1 * self.size.0);
                None
            },
        }
    }
}

/// The number of tiles of the given extent that it takes to cover `length` pixels.
pub open spec fn tile_count(length: int, extent: int) -> int {
    if length % extent == 0 {
        length / extent
    } else {
        length / extent + 1
    }
}

/// The tile in column `tile_column` and row `tile_row` of the tiling of a raster of
/// `size` pixels into tiles of `tile_size`: tiles at the right and lower edge are cut
/// to the raster.
pub open spec fn tile_at(
    size: (usize, usize),
    tile_size: (usize, usize),
    tile_column: int,
    tile_row: int,
) -> Tile {
    let left = tile_column * tile_size.0;
    let top = tile_row * tile_size.1;
    Tile {
        offset_origin: (left as usize, top as usize),
        size: (
            (if left + tile_size.0 <= size.0 {
                tile_size.0 as int
            } else {
                size.0 - left
            }) as usize,
            (if top + tile_size.1 <= size.1 {
                tile_size.1 as int
            } else {
                size.1 - top
            }) as usize,
        ),
    }
}

/// The tiles of a tiling are as many as their columns times their rows, and each of
/// them starts within the raster.
pub proof fn lemma_tile_origin(length: int, extent: int, index: int)
    requires
        0 <= length,
        0 < extent,
        0 <= index < tile_count(length, extent),
    ensures
        0 <= index * extent < length,
        tile_count(length, extent) <= length,
{
    lemma_fundamental_div_mod(length, extent);
    let full = length / extent;
    assert(extent * full == full * extent) by (nonlinear_arith);
    assert(index * extent >= 0) by (nonlinear_arith)
        requires
            index >= 0,
            extent > 0,
    ;
    if index < full {
        assert(index * extent + extent <= full * extent) by (nonlinear_arith)
            requires
                index + 1 <= full,
                extent > 0,
        ;
    }
    assert(full <= full * extent) by (nonlinear_arith)
        requires
            full >= 0,
            extent >= 1,
    ;
}

/// The number of stripes of the given extent that it takes to cover `length` pixels.
fn stripes(length: usize, extent: usize) -> (count: usize)
    requires
        extent > 0,
    ensures
        count == tile_count(length as int, extent as int),
{
    if length % extent == 0 {
        length / extent
    } else {
        proof {
            lemma_fundamental_div_mod(length as int, extent as int);
            let full = length as int / extent as int;
            assert(full < length) by (nonlinear_arith)
                requires
                    length == extent * full + length % extent,
                    length % extent > 0,
                    extent > 0,
                    full >= 0,
            ;
        }
        length / extent + 1
    }
}

/// The tiling of a raster of `size` pixels into tiles of at most `tile_size`, column by
/// column, each column from the top.
pub fn generate_tiles(size: (usize, usize), tile_size: (usize, usize)) -> (tiles: Vec<Tile>)
    requires
        tile_size.0 > 0,
        tile_size.1 > 0,
    ensures
        tiles@.len() == tile_count(size.0 as int, tile_size.0 as int) * tile_count(
            size.1 as int,
            tile_size.1 as int,
        ),
        forall|tile_column: int, tile_row: int|
            0 <= tile_column < tile_count(size.0 as int, tile_size.0 as int) && 0 <= tile_row
                < tile_count(size.1 as int, tile_size.1 as int) ==> #[trigger] tiles@[tile_column
                * tile_count(size.1 as int, tile_size.1 as int) + tile_row] == tile_at(
                size,
                tile_size,
                tile_column,
                tile_row,
            ),
{
    let columns = stripes(size.0, tile_size.0);
    let rows = stripes(size.1, tile_size.1);
    let mut tiles: Vec<Tile> = Vec::new();
    let mut tile_column: usize = 0;
    while tile_column < columns
        invariant
            tile_size.0 > 0,
            tile_size.1 > 0,
            columns == tile_count(size.0 as int, tile_size.0 as int),
            rows == tile_count(size.1 as int, tile_size.1 as int),
            tile_column <= columns,
            tiles@.len() == tile_column * rows,
            forall|a: int, b: int|
                0 <= a < tile_column && 0 <= b < rows ==> #[trigger] tiles@[a * rows + b]
                    == tile_at(size, tile_size, a, b),
        decreases columns - tile_column,
    {
        proof {
            lemma_tile_origin(size.0 as int, tile_size.0 as int, tile_column as int);
        }
        let left = tile_column * tile_size.0;
        let width = if size.0 - left >= tile_size.0 {
            tile_size.0
        } else {
            size.0 - left
        };
        let mut tile_row: usize = 0;
        while tile_row < rows
            invariant
                tile_size.0 > 0,
                tile_size.1 > 0,
                columns == tile_count(size.0 as int, tile_size.0 as int),
                rows == tile_count(size.1 as int, tile_size.1 as int),
                tile_column < columns,
                tile_row <= rows,
                left == tile_column * tile_size.0,
                left < size.0,
                width == tile_at(size, tile_size, tile_column as int, 0).size.0,
                tiles@.len() == tile_column * rows + tile_row,
                forall|a: int, b: int|
                    0 <= a < tile_column && 0 <= b < rows ==> #[trigger] tiles@[a * rows + b]
                        == tile_at(size, tile_size, a, b),
                forall|b: int|
                    0 <= b < tile_row ==> #[trigger] tiles@[tile_column * rows + b] == tile_at(
                        size,
                        tile_size,
                        tile_column as int,
                        b,
                    ),
            decreases rows - tile_row,
        {
            proof {
                lemma_tile_origin(size.1 as int, tile_size.1 as int, tile_row as int);
            }
            let top = tile_row * tile_size.1;
            let height = if size.1 - top >= tile_size.1 {
                tile_size.1
            } else {
                size.1 - top
            };
            let ghost before = tiles@;
            tiles.push(Tile { offset_origin: (left, top), size: (width, height) });
            proof {
                assert forall|a: int, b: int| 0 <= a < tile_column && 0 <= b < rows implies (
                #[trigger] tiles@[a * rows + b]) == tile_at(size, tile_size, a, b) by {
                    assert(a * rows + b < tile_column * rows) by (nonlinear_arith)
                        requires
                            0 <= a < tile_column,
                            0 <= b < rows,
                    ;
                    assert(tiles@[a * rows + b] == before[a * rows + b]);
                }
                assert forall|b: int| 0 <= b < tile_row + 1 implies (#[trigger] tiles@[tile_column
                    * rows + b]) == tile_at(size, tile_size, tile_column as int, b) by {
                    if b < tile_row {
                        assert(tiles@[tile_column * rows + b] == before[tile_column * rows + b]);
                    }
                }
            }
            tile_row = tile_row + 1;
        }
        proof {
            assert(tile_column * rows + rows == (tile_column + 1) * rows) by (nonlinear_arith);
            assert forall|a: int, b: int| 0 <= a < tile_column + 1 && 0 <= b < rows implies (
            #[trigger] tiles@[a * rows + b]) == tile_at(size, tile_size, a, b) by {
                if a == tile_column {
                    assert(tiles@[tile_column * rows + b] == tile_at(
                        size,
                        tile_size,
                        tile_column as int,
                        b,
                    ));
                }
            }
        }
        tile_column = tile_column + 1;
    }
    tiles
}

/// The tiles of a tiling tesselate the raster: every pixel of the raster lies in the
/// tile of its column and row of tiles, and in no other.
pub proof fn lemma_tiles_tesselate(
    size: (usize, usize),
    tile_size: (usize, usize),
    column: int,
    row: int,
    tile_column: int,
    tile_row: int,
)
    requires
        tile_size.0 > 0,
        tile_size.1 > 0,
        0 <= column < size.0,
        0 <= row < size.1,
        0 <= tile_column < tile_count(size.0 as int, tile_size.0 as int),
        0 <= tile_row < tile_count(size.1 as int, tile_size.1 as int),
    ensures
        0 <= column / (tile_size.0 as int) < tile_count(size.0 as int, tile_size.0 as int),
        0 <= row / (tile_size.1 as int) < tile_count(size.1 as int, tile_size.1 as int),
        tile_at(size, tile_size, tile_column, tile_row).contains(column, row) <==> tile_column
            == column / (tile_size.0 as int) && tile_row == row / (tile_size.1 as int),
{
    lemma_in_one_stripe(size.0 as int, tile_size.0 as int, column, tile_column);
    lemma_in_one_stripe(size.1 as int, tile_size.1 as int, row, tile_row);
    lemma_tile_origin(size.0 as int, tile_size.0 as int, tile_column);
    lemma_tile_origin(size.1 as int, tile_size.1 as int, tile_row);
}

/// Along one axis: the pixel `at` lies in the stripe `index` of a tiling exactly where
/// `index` is `at / extent`.
proof fn lemma_in_one_stripe(length: int, extent: int, at: int, index: int)
    requires
        0 < extent,
        0 <= at < length,
        0 <= index < tile_count(length, extent),
    ensures
        0 <= at / extent < tile_count(length, extent),
        (index * extent <= at && at < index * extent + (if index * extent + extent <= length {
            extent
        } else {
            length - index * extent
        })) <==> index == at / extent,
{
    lemma_fundamental_div_mod(at, extent);
    lemma_fundamental_div_mod(length, extent);
    let stripe = at / extent;
    let full = length / extent;
    assert(extent * stripe == stripe * extent) by (nonlinear_arith);
    assert(extent * full == full * extent) by (nonlinear_arith);
    assert(stripe >= 0) by (nonlinear_arith)
        requires
            at == stripe * extent + at % extent,
            0 <= at % extent < extent,
            at >= 0,
            extent > 0,
    ;
    assert(stripe <= full) by (nonlinear_arith)
        requires
            at == stripe * extent + at % extent,
            length == full * extent + length % extent,
            0 <= at % extent < extent,
            0 <= length % extent < extent,
            at < length,
            extent > 0,
    ;
    if stripe == full {
        assert(length % extent != 0);
    }
    if index < stripe {
        assert(index * extent + extent <= stripe * extent) by (nonlinear_arith)
            requires
                index + 1 <= stripe,
                extent > 0,
        ;
    }
    if index > stripe {
        assert(index * extent >= stripe * extent + extent) by (nonlinear_arith)
            requires
                index >= stripe + 1,
                extent > 0,
        ;
    }
}

} // verus!
