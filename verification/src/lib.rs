//! Conversion of georeferenced raster tiles into sets of H3 cells, grouped by the
//! classified attribute values of the pixels the cells are centred on.

pub mod cells;
pub mod cluster;
pub mod error;
pub mod grouped;
pub mod rasterconverter;
pub mod record;
pub mod region;
pub mod sink;
pub mod stack;
pub mod subset;
pub mod sweep;
pub mod tile;
pub mod value;
pub mod walk;
