//! One tile's share of a conversion, and the attribute vectors of its pixels.

use crate::tile::Tile;
use crate::value::{AttributeSeq, Attributes, Value};
use vstd::prelude::*;

verus! {

/// The classified values of one tile: for each band the values of its pixels, row by
/// row, and the resolution of the cells to convert to.
pub struct ConversionSubset {
    pub tile: Tile,
    pub banddata: Vec<Vec<Option<Value>>>,
    pub h3_resolution: u8,
}

impl ConversionSubset {
    /// The far corner of the tile is a pixel of machine words, and every band holds a
    /// value, or no-data, for each pixel of the tile.
    pub open spec fn wf(&self) -> bool {
        &&& self.tile.wf()
        &&& forall|band: int|
            0 <= band < self.banddata@.len() ==> (#[trigger] self.banddata@[band])@.len()
                == self.tile.size.0 * self.tile.size.1
    }
}

/// The function `f` can be called on every argument, and what it returns is decided
/// by the argument.
pub open spec fn is_function<A, B, F: Fn(A) -> B>(f: F) -> bool {
    &&& forall|argument: A| call_requires(f, (argument,))
    &&& forall|argument: A, one: B, other: B|
        call_ensures(f, (argument,), one) && call_ensures(f, (argument,), other) ==> one == other
}

/// What `f` returns for an argument.
pub open spec fn value_of<A, B, F: Fn(A) -> B>(f: F, argument: A) -> B {
    choose|result: B| call_ensures(f, (argument,), result)
}

/// The attribute vector of the pixel at an array position: of each band the value at
/// that position, and no-data where the band has none there.
pub open spec fn attributes_at(banddata: Seq<Vec<Option<Value>>>, position: Option<int>) -> AttributeSeq {
    Seq::new(
        banddata.len(),
        |band: int|
            match position {
                Some(at) => if 0 <= at < banddata[band]@.len() {
                    banddata[band]@[at]
                } else {
                    None
                },
                None => None,
            },
    )
}

/// The attribute vector of the pixel at an array position.
pub fn read_attributes(banddata: &Vec<Vec<Option<Value>>>, position: Option<usize>) -> (attributes:
    Attributes)
    ensures
        attributes@ == attributes_at(
            banddata@,
            match position {
                Some(at) => Some(at as int),
                None => None,
            },
        ),
{
    let mut attributes: Attributes = Vec::new();
    let mut band: usize = 0;
    while band < banddata.len()
        invariant
            band <= banddata.len(),
            attributes@.len() == band,
            forall|b: int|
                0 <= b < band ==> attributes@[b] == attributes_at(
                    banddata@,
                    match position {
                        Some(at) => Some(at as int),
                        None => None,
                    },
                )[b],
        decreases banddata.len() - band,
    {
        let value = match position {
            Some(at) => if at < banddata[band].len() {
                banddata[band][at]
            } else {
                None
            },
            None => None,
        };
        attributes.push(value);
        band = band + 1;
    }
    assert(attributes@ =~= attributes_at(
        banddata@,
        match position {
            Some(at) => Some(at as int),
            None => None,
        },
    ));
    attributes
}

/// The attribute vector of the pixel of the tile that a raster pixel is: of each band
/// the value at the array position of the pixel, counted from the origin of the tile,
/// and no-data where the band has none there.
pub fn pixel_attributes(subset: &ConversionSubset, pixel: (usize, usize)) -> (attributes: Attributes)
    ensures
        attributes@ == attributes_at(subset.banddata@, subset.tile.position_of(pixel)),
{
    let position = subset.tile.array_position_of(pixel);
    let attributes = read_attributes(&subset.banddata, position);
    proof {
        let wanted = attributes_at(subset.banddata@, subset.tile.position_of(pixel));
        assert forall|band: int| 0 <= band < subset.banddata@.len() implies attributes@[band]
            == wanted[band] by {
            assert(subset.banddata@[band].len() <= usize::MAX);
        }
        assert(attributes@ =~= wanted);
    }
    attributes
}

} // verus!
