//! The ways in which setting up or running a conversion can fail.

use vstd::prelude::*;

verus! {

/// Why a conversion could not be set up or carried out.
#[derive(Clone, Copy, Debug, PartialEq, Eq, Structural)]
pub enum Error {
    /// An input names a band that the raster does not have.
    BandOutOfRange,
    /// The raster declares a spatial reference other than WGS 84.
    InvalidSRS,
    /// The raster carries no geotransform.
    NoGeotransformFound,
    /// The geotransform of the raster cannot be inverted.
    GeotransformFailed,
    /// The H3 resolution is not one of 0 to 15.
    H3ResolutionOutOfRange,
    /// A value is not the index of a cell of the H3 grid.
    InvalidCellIndex,
    /// Cells of several resolutions were given where one resolution is expected.
    InvalidResolution,
    /// A window of the raster could not be read.
    RasterReadError,
    /// A worker or the aggregator ended abnormally.
    ConversionFailed,
}

impl Error {
    /// A short description of the failure.
    pub fn message(&self) -> (text: &'static str)
        ensures
            text@ == Self::message_of(*self)@,
    {
        match self {
            Error::BandOutOfRange => "band out of range",
            Error::InvalidSRS => "invalid spatial reference system, must be WGS 84",
            Error::NoGeotransformFound => "no geotransform found",
            Error::GeotransformFailed => "geotransform could not be inverted",
            Error::H3ResolutionOutOfRange => "h3 resolution out of range",
            Error::InvalidCellIndex => "invalid cell index",
            Error::InvalidResolution => "cells of another resolution",
            Error::RasterReadError => "raster could not be read",
            Error::ConversionFailed => "conversion failed",
        }
    }

    /// The description that belongs to each failure.
    pub open spec fn message_of(error: Error) -> &'static str {
        match error {
            Error::BandOutOfRange => "band out of range",
            Error::InvalidSRS => "invalid spatial reference system, must be WGS 84",
            Error::NoGeotransformFound => "no geotransform found",
            Error::GeotransformFailed => "geotransform could not be inverted",
            Error::H3ResolutionOutOfRange => "h3 resolution out of range",
            Error::InvalidCellIndex => "invalid cell index",
            Error::InvalidResolution => "cells of another resolution",
            Error::RasterReadError => "raster could not be read",
            Error::ConversionFailed => "conversion failed",
        }
    }
}

} // verus!
